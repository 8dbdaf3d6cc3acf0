//! Which handler answers a request, and what the handlers answer.
use vstd::prelude::*;
use vstd::string::*;
use crate::json::{items_model, JsonModel, JsonValue};
use crate::parse::{model_of, text_is};
use crate::request::HttpRequest;
use crate::response::{http_error, Body, HttpCode, HttpResponse};

verus! {

/// The handlers.
pub enum Route {
    /// `GET /`: the greeting page.
    Hello,
    /// `POST /`: the request's body, sent back.
    Echo,
    /// Everything else.
    Missing,
}

/// The handler for a method and a target.
pub open spec fn route_of(method: Seq<char>, uri: Seq<char>) -> Route {
    if method == "GET"@ && uri == "/"@ {
        Route::Hello
    } else if method == "POST"@ && uri == "/"@ {
        Route::Echo
    } else {
        Route::Missing
    }
}

/// Picks the handler by method and target.
pub fn route(method: &str, uri: &str) -> (r: Route)
    ensures
        r == route_of(method@, uri@),
{
    if text_is(method, "GET") && text_is(uri, "/") {
        Route::Hello
    } else if text_is(method, "POST") && text_is(uri, "/") {
        Route::Echo
    } else {
        Route::Missing
    }
}

/// Answers with the greeting page.
pub fn hello_world(page: String) -> (r: HttpResponse)
    ensures
        r.code is Okay,
        r.body == Body::Text(page),
{
    HttpResponse { code: HttpCode::Okay, body: Body::Text(page) }
}

/// Answers with the body of the request, with an empty array where it has none.
pub fn test_post(request: HttpRequest) -> (r: HttpResponse)
    ensures
        r.code is Okay,
        r.body matches Body::Json(v) && v.model() == match model_of(request.body) {
            Some(m) => m,
            None => JsonModel::Array(Seq::empty()),
        },
{
    let body = match request.body {
        Some(v) => v,
        None => {
            let empty = JsonValue::Array(Vec::new());
            assert(empty.model() =~= JsonModel::Array(Seq::empty())) by {
                assert(items_model(Seq::<JsonValue>::empty()) =~= Seq::<JsonModel>::empty());
            }
            empty
        },
    };
    HttpResponse { code: HttpCode::Okay, body: Body::Json(body) }
}

/// Answers that the target does not exist, with the given page as message.
pub fn not_found(page: &str) -> (r: HttpResponse)
    ensures
        r.code is NotFound,
        r.body matches Body::Json(v) && v.model() == JsonModel::Text(page@),
{
    http_error(HttpCode::NotFound, page)
}

} // verus!
