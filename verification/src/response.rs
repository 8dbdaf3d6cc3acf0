//! Status classification and the text of a response.
use vstd::prelude::*;
use vstd::string::*;
use crate::json::{JsonModel, JsonValue};
use crate::render::{decimal_text, int_text, render_text};

verus! {

/// How a request ended.
pub enum HttpCode {
    Okay,
    BadRequest,
    NotFound,
    UnknownError,
}

impl HttpCode {
    /// The status number.
    pub open spec fn number(&self) -> int {
        match self {
            HttpCode::Okay => 200,
            HttpCode::BadRequest => 400,
            HttpCode::NotFound => 404,
            HttpCode::UnknownError => 300,
        }
    }

    /// The reason phrase.
    pub open spec fn reason(&self) -> Seq<char> {
        match self {
            HttpCode::Okay => "Ok"@,
            HttpCode::BadRequest => "BAD REQUEST"@,
            HttpCode::NotFound => "NOT FOUND"@,
            HttpCode::UnknownError => ""@,
        }
    }

    /// The status number.
    pub fn value(&self) -> (r: i32)
        ensures
            r == self.number(),
    {
        match self {
            HttpCode::Okay => 200,
            HttpCode::BadRequest => 400,
            HttpCode::NotFound => 404,
            HttpCode::UnknownError => 300,
        }
    }

    /// The reason phrase.
    pub fn to_string(&self) -> (r: String)
        ensures
            r@ == self.reason(),
    {
        match self {
            HttpCode::Okay => String::from_str("Ok"),
            HttpCode::BadRequest => String::from_str("BAD REQUEST"),
            HttpCode::NotFound => String::from_str("NOT FOUND"),
            HttpCode::UnknownError => String::from_str(""),
        }
    }
}

/// What a response carries: plain text, or a value to render.
pub enum Body {
    Text(String),
    Json(JsonValue),
}

impl Body {
    /// The text that goes on the wire.
    pub open spec fn text(&self) -> Seq<char> {
        match self {
            Body::Text(t) => t@,
            Body::Json(v) => render_text(v.model()),
        }
    }

    /// The text that goes on the wire.
    pub fn to_string(&self) -> (r: String)
        ensures
            r@ == self.text(),
    {
        match self {
            Body::Text(t) => t.clone(),
            Body::Json(v) => v.to_string(),
        }
    }
}

/// A status and a body.
pub struct HttpResponse {
    pub code: HttpCode,
    pub body: Body,
}

/// The class under which an error is reported: bad requests and missing
/// targets keep theirs, everything else is an unknown error.
pub open spec fn error_class(code: HttpCode) -> HttpCode {
    match code {
        HttpCode::BadRequest => HttpCode::BadRequest,
        HttpCode::NotFound => HttpCode::NotFound,
        _ => HttpCode::UnknownError,
    }
}

/// An error response whose body is the message as a string value.
pub fn http_error(code: HttpCode, error_message: &str) -> (r: HttpResponse)
    ensures
        r.code == error_class(code),
        r.body matches Body::Json(v) && v.model() == JsonModel::Text(error_message@),
{
    let body = Body::Json(JsonValue::String(String::from_str(error_message)));
    match code {
        HttpCode::BadRequest => HttpResponse { code: HttpCode::BadRequest, body },
        HttpCode::NotFound => HttpResponse { code: HttpCode::NotFound, body },
        _ => HttpResponse { code: HttpCode::UnknownError, body },
    }
}

/// The bytes of a response as text: the status line, two empty lines, the body.
pub open spec fn response_text_of(code: HttpCode, body: Seq<char>) -> Seq<char> {
    "HTTP/1.1 "@ + decimal_text(code.number()) + " "@ + code.reason() + "\r\n\r\n"@ + "\r\n"@
        + body
}

/// Writes the response as text.
pub fn response_text(response: &HttpResponse) -> (r: String)
    ensures
        r@ == response_text_of(response.code, response.body.text()),
{
    let mut out = String::from_str("HTTP/1.1 ");
    let number = int_text(response.code.value());
    out.append(number.as_str());
    out.append(" ");
    let reason = response.code.to_string();
    out.append(reason.as_str());
    out.append("\r\n\r\n");
    out.append("\r\n");
    let body = response.body.to_string();
    out.append(body.as_str());
    out
}

} // verus!
