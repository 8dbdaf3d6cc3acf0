//! The message framer: header lines up to the line that announces the body's
//! length, then that many bytes of body.
use vstd::prelude::*;
use vstd::string::*;
use vstd::utf8::{decode_utf8, valid_utf8};
use crate::scan::{has_word_at, word_at};
use crate::text::{find_char, index_from, length_of_text, parse_length, trim, trimmed};

verus! {

/// Where the framer stands.
pub enum Stage {
    /// More bytes are taken.
    Reading,
    /// The message is whole; further bytes are left alone.
    Complete,
    /// A header line was no text, or announced no usable length.
    Broken,
}

/// What a completed header line says of the body.
pub enum Announce {
    /// The line is no length header.
    Silent,
    /// The body has this many bytes.
    Length(usize),
    /// A length header without a colon, or without a number after it.
    Invalid,
}

/// What a header line announces: a line that begins, white space and letter
/// case apart, with `content-length` gives the number after its first colon.
pub open spec fn announce(line: Seq<char>) -> Announce {
    let t = trimmed(line);
    let c = index_from(t, ':', 0);
    if !word_at(t, 0, "content-length"@) {
        Announce::Silent
    } else if !(0 <= c < t.len()) {
        Announce::Invalid
    } else {
        match length_of_text(trimmed(t.subrange(c + 1, t.len() as int))) {
            Some(v) => Announce::Length(v),
            None => Announce::Invalid,
        }
    }
}

/// Reads what a header line announces.
pub fn read_announce(line: &str) -> (r: Announce)
    ensures
        r == announce(line@),
{
    let t = trim(line);
    if !has_word_at(t, 0, "content-length") {
        return Announce::Silent;
    }
    let c = find_char(t, ':');
    let n: usize = t.unicode_len();
    if c >= n {
        return Announce::Invalid;
    }
    match parse_length(trim(t.substring_char(c + 1, n))) {
        Some(v) => Announce::Length(v),
        None => Announce::Invalid,
    }
}

/// ASCII white space: space, tab, line feed, form feed, carriage return.
pub open spec fn is_blank(b: u8) -> bool {
    b == 32 || b == 9 || b == 10 || b == 12 || b == 13
}

/// The framer's state as mathematics.
pub ghost struct FrameModel {
    pub lines: Seq<Seq<char>>,
    pub current: Seq<u8>,
    pub body: Seq<u8>,
    /// The announced length; zero while the header is read.
    pub target: nat,
    pub stage: Stage,
}

/// The state before any byte.
pub open spec fn initial() -> FrameModel {
    FrameModel {
        lines: Seq::empty(),
        current: Seq::empty(),
        body: Seq::empty(),
        target: 0,
        stage: Stage::Reading,
    }
}

/// The state after one more byte.
pub open spec fn step(st: FrameModel, byte: u8) -> FrameModel {
    if !(st.stage is Reading) {
        st
    } else if st.target > 0 {
        if st.body.len() == 0 && is_blank(byte) {
            st
        } else if st.body.len() + 1 == st.target {
            FrameModel { body: st.body.push(byte), stage: Stage::Complete, ..st }
        } else {
            FrameModel { body: st.body.push(byte), ..st }
        }
    } else if byte != 10 {
        FrameModel { current: st.current.push(byte), ..st }
    } else if !valid_utf8(st.current) {
        FrameModel { current: Seq::empty(), stage: Stage::Broken, ..st }
    } else {
        let line = decode_utf8(st.current);
        let lines = st.lines.push(line);
        match announce(line) {
            Announce::Silent => FrameModel { lines, current: Seq::empty(), ..st },
            Announce::Invalid => FrameModel {
                lines,
                current: Seq::empty(),
                stage: Stage::Broken,
                ..st
            },
            Announce::Length(v) => if v == 0 {
                FrameModel { lines, current: Seq::empty(), stage: Stage::Complete, ..st }
            } else {
                FrameModel { lines, current: Seq::empty(), target: v as nat, ..st }
            },
        }
    }
}

/// The state after the first `i` bytes of a stream.
pub open spec fn run(bytes: Seq<u8>, i: int) -> FrameModel
    decreases i,
{
    if i <= 0 {
        initial()
    } else {
        step(run(bytes, i - 1), bytes[i - 1])
    }
}

/// What a state yields when the stream ends there or the message is whole:
/// nothing once broken, else the header lines and the body as text (empty
/// where the body's bytes are no text).
pub open spec fn outcome(st: FrameModel) -> Option<(Seq<Seq<char>>, Seq<char>)> {
    if st.stage is Broken {
        None
    } else if valid_utf8(st.body) {
        Some((st.lines, decode_utf8(st.body)))
    } else {
        Some((st.lines, Seq::empty()))
    }
}

/// The texts of a list of lines.
pub open spec fn line_texts(lines: Seq<String>) -> Seq<Seq<char>> {
    Seq::new(lines.len(), |i: int| lines[i]@)
}

/// `String::from_utf8`: the text that the bytes encode, where they are valid
/// UTF-8, and nothing where they are not.
#[verifier::external_body]
pub(crate) fn decode_text(bytes: Vec<u8>) -> (r: Option<String>)
    ensures
        match r {
            Some(s) => valid_utf8(bytes@) && s@ == decode_utf8(bytes@),
            None => !valid_utf8(bytes@),
        },
{
    match String::from_utf8(bytes) {
        Ok(s) => Some(s),
        Err(_) => None,
    }
}

/// The framer: fed one byte at a time until it is no longer `Reading`.
pub struct Framer {
    pub lines: Vec<String>,
    pub current: Vec<u8>,
    pub body: Vec<u8>,
    pub target: usize,
    pub stage: Stage,
}

impl Framer {
    /// The state as mathematics.
    pub open spec fn model(&self) -> FrameModel {
        FrameModel {
            lines: line_texts(self.lines@),
            current: self.current@,
            body: self.body@,
            target: self.target as nat,
            stage: self.stage,
        }
    }

    /// A framer that has read nothing.
    pub fn new() -> (r: Framer)
        ensures
            r.model() == initial(),
    {
        let r = Framer {
            lines: Vec::new(),
            current: Vec::new(),
            body: Vec::new(),
            target: 0,
            stage: Stage::Reading,
        };
        assert(line_texts(r.lines@) =~= Seq::empty());
        r
    }

    /// Whether the framer takes more bytes.
    pub fn is_reading(&self) -> (r: bool)
        ensures
            r == (self.model().stage is Reading),
    {
        match self.stage {
            Stage::Reading => true,
            _ => false,
        }
    }

    /// Takes one byte of the stream.
    pub fn feed(self, byte: u8) -> (r: Framer)
        ensures
            r.model() == step(self.model(), byte),
    {
        let ghost before = self.model();
        let Framer { lines, current, body, target, stage } = self;
        let mut lines = lines;
        let mut current = current;
        let mut body = body;
        match stage {
            Stage::Reading => {},
            _ => {
                return Framer { lines, current, body, target, stage };
            },
        }
        if target > 0 {
            if body.len() == 0 && (byte == 32 || byte == 9 || byte == 10 || byte == 12 || byte
                == 13) {
                return Framer { lines, current, body, target, stage };
            }
            let whole = body.len() == target - 1;
            body.push(byte);
            if whole {
                return Framer { lines, current, body, target, stage: Stage::Complete };
            }
            return Framer { lines, current, body, target, stage };
        }
        if byte != 10 {
            current.push(byte);
            return Framer { lines, current, body, target, stage };
        }
        match decode_text(current) {
            None => {
                Framer { lines, current: Vec::new(), body, target, stage: Stage::Broken }
            },
            Some(line) => {
                let told = read_announce(line.as_str());
                let ghost text = line@;
                lines.push(line);
                assert(line_texts(lines@) =~= before.lines.push(text));
                match told {
                    Announce::Silent => Framer { lines, current: Vec::new(), body, target, stage },
                    Announce::Invalid => Framer {
                        lines,
                        current: Vec::new(),
                        body,
                        target,
                        stage: Stage::Broken,
                    },
                    Announce::Length(v) => if v == 0 {
                        Framer { lines, current: Vec::new(), body, target, stage: Stage::Complete }
                    } else {
                        Framer { lines, current: Vec::new(), body, target: v, stage }
                    },
                }
            },
        }
    }

    /// The header lines and the body gathered so far; nothing once broken.
    pub fn finish(self) -> (r: Option<(Vec<String>, String)>)
        ensures
            match r {
                Some((lines, body)) => outcome(self.model()) == Some((line_texts(lines@), body@)),
                None => outcome(self.model()) is None,
            },
    {
        match self.stage {
            Stage::Broken => None,
            _ => match decode_text(self.body) {
                Some(text) => Some((self.lines, text)),
                None => Some((self.lines, String::new())),
            },
        }
    }
}

/// A header line that announces a length of zero completes the message at
/// once: the line is kept as the last header line and the body stays empty.
pub proof fn lemma_zero_length_completes(st: FrameModel)
    requires
        st.stage is Reading,
        st.target == 0,
        valid_utf8(st.current),
        announce(decode_utf8(st.current)) == Announce::Length(0),
    ensures
        step(st, 10).stage is Complete,
        step(st, 10).lines == st.lines.push(decode_utf8(st.current)),
        step(st, 10).body == st.body,
{
}

/// While the body is read, the first byte that is no white space opens it,
/// and the byte that brings it to the announced length completes the message.
pub proof fn lemma_body_bytes(st: FrameModel, byte: u8)
    requires
        st.stage is Reading,
        st.target > 0,
        st.body.len() < st.target,
    ensures
        st.body.len() == 0 && is_blank(byte) ==> step(st, byte) == st,
        !(st.body.len() == 0 && is_blank(byte)) ==> step(st, byte).body == st.body.push(byte),
        step(st, byte).stage is Complete <==> !(st.body.len() == 0 && is_blank(byte))
            && st.body.len() + 1 == st.target,
        step(st, byte).lines == st.lines,
{
}

/// Where the body opens at byte `i` of a stream with a byte that is no white
/// space, the next `n` bytes are the body, `n` being the announced length:
/// after the first `k` of them the body holds exactly those, and the message
/// is complete when `k` reaches `n` and not before.
pub proof fn lemma_body_collected(bytes: Seq<u8>, i: int, k: int)
    requires
        0 <= i,
        run(bytes, i).stage is Reading,
        run(bytes, i).target > 0,
        run(bytes, i).body.len() == 0,
        1 <= k <= run(bytes, i).target,
        i + k <= bytes.len(),
        !is_blank(bytes[i]),
    ensures
        run(bytes, i + k).body == bytes.subrange(i, i + k),
        run(bytes, i + k).lines == run(bytes, i).lines,
        run(bytes, i + k).target == run(bytes, i).target,
        run(bytes, i + k).stage is Complete <==> k == run(bytes, i).target,
        run(bytes, i + k).stage is Complete || run(bytes, i + k).stage is Reading,
    decreases k,
{
    if k > 1 {
        lemma_body_collected(bytes, i, k - 1);
        assert(bytes.subrange(i, i + k - 1).push(bytes[i + k - 1]) =~= bytes.subrange(i, i + k));
    } else {
        assert(Seq::<u8>::empty().push(bytes[i]) =~= bytes.subrange(i, i + 1));
        assert(run(bytes, i).body =~= Seq::<u8>::empty());
    }
}

/// The framed message does not depend on what follows the body in the
/// stream: the outcome is that of the stream cut after the body's last byte.
pub proof fn lemma_rest_unread(bytes: Seq<u8>, i: int)
    requires
        0 <= i,
        run(bytes, i).stage is Reading,
        run(bytes, i).target > 0,
        run(bytes, i).body.len() == 0,
        i + run(bytes, i).target <= bytes.len(),
        !is_blank(bytes[i]),
    ensures
        run(bytes, bytes.len() as int).stage is Complete,
        run(bytes, bytes.len() as int).body == bytes.subrange(i, i + run(bytes, i).target),
        run(bytes, bytes.len() as int).lines == run(bytes, i).lines,
{
    let n = run(bytes, i).target as int;
    lemma_body_collected(bytes, i, n);
    lemma_stopped_stays(bytes, i + n, bytes.len() as int);
}

/// Once the framer has stopped reading, further bytes change nothing.
pub proof fn lemma_stopped_stays(bytes: Seq<u8>, i: int, j: int)
    requires
        0 <= i <= j,
        !(run(bytes, i).stage is Reading),
    ensures
        run(bytes, j) == run(bytes, i),
    decreases j - i,
{
    if i < j {
        lemma_stopped_stays(bytes, i, j - 1);
    }
}

/// Frames the message at the head of a stream: the header lines and the body,
/// or nothing where the header is broken.
pub fn split_request(stream: &Vec<u8>) -> (r: Option<(Vec<String>, String)>)
    ensures
        match r {
            Some((lines, body)) => outcome(run(stream@, stream@.len() as int)) == Some(
                (line_texts(lines@), body@),
            ),
            None => outcome(run(stream@, stream@.len() as int)) is None,
        },
{
    let mut framer = Framer::new();
    let mut i: usize = 0;
    while i < stream.len() && framer.is_reading()
        invariant
            i <= stream@.len(),
            framer.model() == run(stream@, i as int),
        decreases stream@.len() - i,
    {
        framer = framer.feed(stream[i]);
        i += 1;
    }
    proof {
        if i < stream@.len() {
            lemma_stopped_stays(stream@, i as int, stream@.len() as int);
        }
    }
    framer.finish()
}

} // verus!
