//! The metadata scanner: what a transcript's lines say about its session.

use vstd::prelude::*;

use crate::json::{bool_field, field, json_of, parse_json, str_field, Json};

use crate::text::{
    blank, chars_of, flatten, flatten_newlines, has_prefix, is_blank, lines_of, push_chars,
    split_lines, views,
};

verus! {

/// The text of one content block: its `text`, where its `type` is `"text"`.
pub open spec fn block_text(b: Json) -> Seq<char> {
    if str_field(b, "type"@) == Some("text"@) {
        match str_field(b, "text"@) {
            Some(t) => t,
            None => Seq::<char>::empty(),
        }
    } else {
        Seq::<char>::empty()
    }
}

/// The texts of a list of content blocks, concatenated.
pub open spec fn blocks_text(items: Seq<Json>) -> Seq<char>
    decreases items.len(),
{
    if items.len() == 0 {
        Seq::<char>::empty()
    } else {
        blocks_text(items.drop_last()) + block_text(items.last())
    }
}

/// The display text of a message's content: a plain string, or the text
/// blocks of an array.
pub open spec fn content_text(c: Json) -> Seq<char> {
    match c {
        Json::Str(s) => s@,
        Json::Array(items) => blocks_text(items@),
        _ => Seq::<char>::empty(),
    }
}

/// The display text of a record's `message.content`, where it has one.
pub open spec fn message_text(v: Json) -> Option<Seq<char>> {
    match field(v, "message"@) {
        Some(m) => match field(m, "content"@) {
            Some(c) => Some(content_text(c)),
            None => None,
        },
        None => None,
    }
}

/// Text that the tool inserts in the user's name rather than the user.
pub open spec fn is_synthetic(t: Seq<char>) -> bool {
    ||| "Caveat:"@.is_prefix_of(t)
    ||| "<command"@.is_prefix_of(t)
    ||| "<local-command"@.is_prefix_of(t)
}

/// The text of a record that counts as a user message: of type `"user"`,
/// not flagged `isMeta`, with a content that is not synthetic.
pub open spec fn user_message(v: Json) -> Option<Seq<char>> {
    if str_field(v, "type"@) == Some("user"@) && bool_field(v, "isMeta"@) != Some(true) {
        match message_text(v) {
            Some(t) => if is_synthetic(t) {
                None
            } else {
                Some(t)
            },
            None => None,
        }
    } else {
        None
    }
}

/// The user message of a transcript line, if the line is one.
pub open spec fn line_message(line: Seq<char>) -> Option<Seq<char>> {
    match json_of(line) {
        Some(v) => user_message(v),
        None => None,
    }
}

/// The non-empty `customTitle` of a transcript line, if it has one.
pub open spec fn line_title(line: Seq<char>) -> Option<Seq<char>> {
    match json_of(line) {
        Some(v) => match str_field(v, "customTitle"@) {
            Some(t) => if t.len() > 0 {
                Some(t)
            } else {
                None
            },
            None => None,
        },
        None => None,
    }
}

/// How many lines are user messages.
pub open spec fn count_messages(ls: Seq<Seq<char>>) -> nat
    decreases ls.len(),
{
    if ls.len() == 0 {
        0
    } else {
        count_messages(ls.drop_last()) + if line_message(ls.last()) is Some {
            1nat
        } else {
            0nat
        }
    }
}

/// The first user message that is not blank, flattened to one line.
pub open spec fn first_message(ls: Seq<Seq<char>>) -> Option<Seq<char>>
    decreases ls.len(),
{
    if ls.len() == 0 {
        None
    } else {
        match first_message(ls.drop_last()) {
            Some(t) => Some(t),
            None => match line_message(ls.last()) {
                Some(t) => if is_blank(t) {
                    None
                } else {
                    Some(flatten(t))
                },
                None => None,
            },
        }
    }
}

/// The last non-empty custom title.
pub open spec fn last_title(ls: Seq<Seq<char>>) -> Option<Seq<char>>
    decreases ls.len(),
{
    if ls.len() == 0 {
        None
    } else {
        match line_title(ls.last()) {
            Some(t) => Some(t),
            None => last_title(ls.drop_last()),
        }
    }
}

/// What stands in for the first message of a transcript without one.
pub open spec fn empty_marker() -> Seq<char> {
    "(empty)"@
}

pub open spec fn opt_view(o: Option<String>) -> Option<Seq<char>> {
    match o {
        Some(s) => Some(s@),
        None => None,
    }
}

/// What a scan of a transcript finds.
pub struct Scan {
    pub title: Option<String>,
    pub message_count: usize,
    pub first_message: String,
}

impl Scan {
    /// The scan of a transcript with the given text.
    pub open spec fn of_text(self, text: Seq<char>) -> bool {
        let ls = lines_of(text);
        &&& opt_view(self.title) == last_title(ls)
        &&& self.message_count == count_messages(ls)
        &&& self.first_message@ == match first_message(ls) {
            Some(t) => t,
            None => empty_marker(),
        }
    }
}

/// The display text of a message's content.
pub fn extract_text(c: &Json) -> (r: String)
    ensures
        r@ == content_text(*c),
{
    match c {
        Json::Str(s) => s.clone(),
        Json::Array(items) => {
            let mut out = String::new();
            let mut i: usize = 0;
            while i < items.len()
                invariant
                    i <= items.len(),
                    out@ == blocks_text(items@.take(i as int)),
                decreases items.len() - i,
            {
                let b = &items[i];
                proof {
                    assert(items@.take(i + 1).drop_last() =~= items@.take(i as int));
                }
                match b.get_str("type") {
                    Some(t) => {
                        if crate::text::same_text(t.as_str(), "text") {
                            match b.get_str("text") {
                                Some(x) => {
                                    let cs = chars_of(x.as_str());
                                    push_chars(&mut out, &cs);
                                },
                                None => {
                                    proof {
                                        assert(out@ + Seq::<char>::empty() =~= out@);
                                    }
                                },
                            }
                        } else {
                            proof {
                                assert(out@ + Seq::<char>::empty() =~= out@);
                            }
                        }
                    },
                    None => {
                        proof {
                            assert(out@ + Seq::<char>::empty() =~= out@);
                        }
                    },
                }
                i += 1;
            }
            proof {
                assert(items@.take(items.len() as int) =~= items@);
            }
            out
        },
        _ => String::new(),
    }
}

/// The display text of a record's `message.content`.
pub fn record_text(v: &Json) -> (r: Option<String>)
    ensures
        opt_view(r) == message_text(*v),
{
    match v.get("message") {
        Some(m) => match m.get("content") {
            Some(c) => Some(extract_text(c)),
            None => None,
        },
        None => None,
    }
}

/// Whether a text starts with one of the synthetic markers.
pub fn synthetic(t: &Vec<char>) -> (r: bool)
    ensures
        r == is_synthetic(t@),
{
    has_prefix(t, "Caveat:") || has_prefix(t, "<command") || has_prefix(t, "<local-command")
}

/// The text of a record that counts as a user message.
pub fn user_text(v: &Json) -> (r: Option<Vec<char>>)
    ensures
        match r {
            Some(t) => user_message(*v) == Some(t@),
            None => user_message(*v) is None,
        },
{
    let is_user = match v.get_str("type") {
        Some(t) => crate::text::same_text(t.as_str(), "user"),
        None => false,
    };
    if !is_user {
        return None;
    }
    if v.get_bool("isMeta") == Some(true) {
        return None;
    }
    match record_text(v) {
        Some(t) => {
            let cs = chars_of(t.as_str());
            if synthetic(&cs) {
                None
            } else {
                Some(cs)
            }
        },
        None => None,
    }
}

/// The non-empty `customTitle` of a record.
pub fn record_title(v: &Json) -> (r: Option<String>)
    ensures
        opt_view(r) == match str_field(*v, "customTitle"@) {
            Some(t) => if t.len() > 0 {
                Some(t)
            } else {
                None
            },
            None => None,
        },
{
    match v.get_str("customTitle") {
        Some(t) => if t.as_str().is_empty() {
            None
        } else {
            Some(t.clone())
        },
        None => None,
    }
}

/// Scans a transcript's text: the last non-empty custom title, the number of
/// user messages, and the first non-blank one flattened to a line (or
/// `"(empty)"`). Lines that are not JSON are passed over.
pub fn scan_file(text: &str) -> (r: Scan)
    ensures
        r.of_text(text@),
{
    let lines = split_lines(text);
    let ghost ls = views(lines@);
    let mut count: usize = 0;
    let mut first: Option<String> = None;
    let mut title: Option<String> = None;
    let mut i: usize = 0;
    while i < lines.len()
        invariant
            i <= lines.len(),
            ls == views(lines@),
            count <= i,
            count == count_messages(ls.take(i as int)),
            opt_view(first) == first_message(ls.take(i as int)),
            opt_view(title) == last_title(ls.take(i as int)),
        decreases lines.len() - i,
    {
        proof {
            assert(ls.take(i + 1).drop_last() =~= ls.take(i as int));
            assert(ls.take(i + 1).last() == lines@[i as int]@);
        }
        match parse_json(lines[i].as_str()) {
            Some(v) => {
                match record_title(&v) {
                    Some(t) => {
                        title = Some(t);
                    },
                    None => {},
                }
                match user_text(&v) {
                    Some(t) => {
                        count += 1;
                        if first.is_none() && !blank(&t) {
                            first = Some(flatten_newlines(&t));
                        }
                    },
                    None => {},
                }
            },
            None => {},
        }
        i += 1;
    }
    proof {
        assert(ls.take(lines.len() as int) =~= ls);
        assert(ls =~= lines_of(text@));
    }
    let first_message = match first {
        Some(f) => f,
        None => String::from_str("(empty)"),
    };
    Scan { title, message_count: count, first_message }
}

/// What serde_json writes for a string: its JSON literal, quoted and escaped.
pub uninterp spec fn json_string(s: Seq<char>) -> Seq<char>;

/// Relies on `serde_json::to_string` on a `str`: the string's JSON literal.
/// Writing a string to memory does not fail.
#[verifier::external_body]
fn quote_json(s: &str) -> (r: String)
    ensures
        r@ == json_string(s@),
{
    serde_json::to_string(s).unwrap_or_default()
}

/// The line that records a rename.
pub open spec fn rename_line(name: Seq<char>, timestamp: Seq<char>) -> Seq<char> {
    "{\"type\":\"rename\",\"customTitle\":"@ + json_string(name) + ",\"timestamp\":"@
        + json_string(timestamp) + "}"@
}

/// The text to append to a transcript whose last character is `tail` to
/// record a rename: the rename line, on a line of its own, ended by a line
/// feed. Existing lines are never changed.
pub fn rename_append(tail: Option<char>, name: &str, timestamp: &str) -> (r: String)
    ensures
        r@ == (if tail is Some && tail->0 != '\n' {
            seq!['\n']
        } else {
            Seq::<char>::empty()
        }) + rename_line(name@, timestamp@) + seq!['\n'],
{
    let mut out = String::new();
    match tail {
        Some(c) => {
            if c != '\n' {
                crate::text::push_char(&mut out, '\n');
            }
        },
        None => {},
    }
    let ghost start = out@;
    out.append("{\"type\":\"rename\",\"customTitle\":");
    out.append(quote_json(name).as_str());
    out.append(",\"timestamp\":");
    out.append(quote_json(timestamp).as_str());
    out.append("}");
    crate::text::push_char(&mut out, '\n');
    proof {
        assert(out@ =~= start + rename_line(name@, timestamp@) + seq!['\n']);
    }
    out
}

} // verus!
