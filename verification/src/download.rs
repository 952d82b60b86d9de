//! The download cache's validators: the `ETag` and `Last-Modified` values kept
//! in a text file beside each cached file, from which the next request is made
//! conditional.

use crate::finder::text_view;
use crate::source::{chars_of, stands_at};
use vstd::prelude::*;
use vstd::string::*;

verus! {

/// A validator of a cached file.
#[derive(Clone, Debug, PartialEq, Eq)]
pub enum Validator {
    /// sent as `If-None-Match`
    Etag(String),
    /// sent as `If-Modified-Since`
    LastModified(String),
}

/// What a validator says.
pub enum ValidatorView {
    Etag(Seq<char>),
    LastModified(Seq<char>),
}

impl View for Validator {
    type V = ValidatorView;

    open spec fn view(&self) -> ValidatorView {
        match self {
            Validator::Etag(value) => ValidatorView::Etag(value@),
            Validator::LastModified(value) => ValidatorView::LastModified(value@),
        }
    }
}

/// The views of a list of validators.
pub open spec fn validator_views(v: Seq<Validator>) -> Seq<ValidatorView> {
    v.map_values(|x: Validator| x@)
}

/// The first newline from `i` on, or the end of the text.
pub open spec fn newline_from(s: Seq<char>, i: int) -> int
    decreases s.len() - i,
{
    if i < 0 || i >= s.len() {
        s.len() as int
    } else if s[i] == '\n' {
        i
    } else {
        newline_from(s, i + 1)
    }
}

/// A line without the carriage return before its newline.
pub open spec fn chopped(line: Seq<char>) -> Seq<char> {
    if line.len() > 0 && line.last() == '\r' {
        line.drop_last()
    } else {
        line
    }
}

/// The validator a line holds, if any.
pub open spec fn validator_in(line: Seq<char>) -> Seq<ValidatorView> {
    if stands_at(line, "etag: "@, 0) {
        seq![ValidatorView::Etag(line.skip(6))]
    } else if stands_at(line, "last-modified: "@, 0) {
        seq![ValidatorView::LastModified(line.skip(15))]
    } else {
        Seq::empty()
    }
}

/// The validators of a text, line by line. A line ends at a newline, and a
/// carriage return before it belongs to the ending.
pub open spec fn validators_in(s: Seq<char>) -> Seq<ValidatorView>
    decreases s.len(),
{
    if s.len() == 0 {
        Seq::empty()
    } else {
        let end = newline_from(s, 0);
        if 0 <= end < s.len() {
            validator_in(chopped(s.take(end))) + validators_in(s.skip(end + 1))
        } else {
            validator_in(s)
        }
    }
}

/// The text that keeps the validators of a response.
pub open spec fn kept_text(etag: Option<Seq<char>>, modified: Option<Seq<char>>) -> Seq<char> {
    let first = match etag {
        Some(value) => "etag: "@ + value + "\n"@,
        None => ""@,
    };
    match modified {
        Some(value) => first + "last-modified: "@ + value + "\n"@,
        None => first,
    }
}

/// Whether a value survives a line: no newline in it, no carriage return at
/// its end.
pub open spec fn one_line(value: Seq<char>) -> bool {
    &&& forall|i: int| 0 <= i < value.len() ==> value[i] != '\n'
    &&& value.len() > 0 ==> value.last() != '\r'
}

/// A newline is where it is first met.
proof fn lemma_newline(s: Seq<char>, i: int, end: int)
    requires
        0 <= i <= end <= s.len(),
        forall|k: int| i <= k < end ==> s[k] != '\n',
        end < s.len() ==> s[end] == '\n',
    ensures
        newline_from(s, i) == end,
    decreases end - i,
{
    if i < end {
        lemma_newline(s, i + 1, end);
    }
}

/// The validators of a line and of what follows it.
proof fn lemma_line_then(line: Seq<char>, rest: Seq<char>)
    requires
        one_line(line),
    ensures
        validators_in(line + "\n"@ + rest) == validator_in(line) + validators_in(rest),
{
    reveal_strlit("\n");
    let s = line + "\n"@ + rest;
    lemma_newline(s, 0, line.len() as int);
    assert(s.take(line.len() as int) =~= line);
    assert(s.skip(line.len() as int + 1) =~= rest);
}

/// Reading the kept text gives back the validators that were kept, in order.
pub proof fn lemma_validators_round_trip(etag: Option<Seq<char>>, modified: Option<Seq<char>>)
    requires
        etag matches Some(value) ==> one_line(value),
        modified matches Some(value) ==> one_line(value),
    ensures
        validators_in(kept_text(etag, modified)) == (match etag {
            Some(value) => seq![ValidatorView::Etag(value)],
            None => Seq::empty(),
        }) + (match modified {
            Some(value) => seq![ValidatorView::LastModified(value)],
            None => Seq::empty(),
        }),
{
    reveal_strlit("etag: ");
    reveal_strlit("last-modified: ");
    reveal_strlit("");
    let tail = match modified {
        Some(value) => "last-modified: "@ + value + "\n"@,
        None => ""@,
    };
    let kept = (match modified {
        Some(value) => seq![ValidatorView::LastModified(value)],
        None => Seq::empty(),
    });
    assert(validators_in(tail) =~= kept) by {
        if let Some(value) = modified {
            let line = "last-modified: "@ + value;
            lemma_one_line("last-modified: "@, value);
            lemma_line_then(line, ""@);
            assert(tail =~= line + "\n"@ + ""@);
            assert(line.subrange(0, 15) =~= "last-modified: "@);
            assert(line[0] == 'l');
            assert(line.subrange(0, 6)[0] == 'l');
            assert("etag: "@[0] == 'e');
            assert(line.skip(15) =~= value);
        }
    }
    match etag {
        Some(value) => {
            let line = "etag: "@ + value;
            lemma_one_line("etag: "@, value);
            lemma_line_then(line, tail);
            assert(kept_text(etag, modified) =~= line + "\n"@ + tail);
            assert(line.subrange(0, 6) =~= "etag: "@);
            assert(line.skip(6) =~= value);
        },
        None => {
            assert(kept_text(etag, modified) =~= tail);
            assert(Seq::<ValidatorView>::empty() + kept =~= kept);
        },
    }
}

/// A label with neither line ending in it leaves a value on one line.
proof fn lemma_one_line(label: Seq<char>, value: Seq<char>)
    requires
        one_line(label),
        label.len() > 0,
        one_line(value),
    ensures
        one_line(label + value),
{
    let line = label + value;
    assert forall|i: int| 0 <= i < line.len() implies line[i] != '\n' by {
        if i < label.len() {
            assert(line[i] == label[i]);
        } else {
            assert(line[i] == value[i - label.len()]);
        }
    }
}

/// The text that keeps the validators of a response.
pub fn validator_text(etag: Option<&str>, modified: Option<&str>) -> (text: String)
    ensures
        text@ == kept_text(text_view(etag), text_view(modified)),
{
    let mut text = String::from_str("");
    proof {
        reveal_strlit("");
    }
    if let Some(value) = etag {
        text.append("etag: ");
        text.append(value);
        text.append("\n");
        assert(text@ =~= "etag: "@ + value@ + "\n"@);
    }
    if let Some(value) = modified {
        text.append("last-modified: ");
        text.append(value);
        text.append("\n");
    }
    text
}

/// Whether a label stands at `at` and ends by `end`.
fn labelled(s: &Vec<char>, label: &Vec<char>, at: usize, end: usize) -> (is: bool)
    requires
        at <= end <= s@.len(),
    ensures
        is == stands_at(s@.subrange(at as int, end as int), label@, 0),
{
    let ghost line = s@.subrange(at as int, end as int);
    if label.len() > end - at {
        return false;
    }
    let mut i: usize = 0;
    while i < label.len()
        invariant
            i <= label@.len(),
            label@.len() <= end - at,
            at <= end <= s@.len(),
            line == s@.subrange(at as int, end as int),
            forall|k: int| 0 <= k < i ==> line[k] == label@[k],
        decreases label@.len() - i,
    {
        if s[at + i] != label[i] {
            proof {
                assert(line.subrange(0, label@.len() as int)[i as int] == s@[at + i]);
            }
            return false;
        }
        i = i + 1;
    }
    assert(line.subrange(0, label@.len() as int) =~= label@);
    true
}

/// The validators that a text keeps, in order.
#[verifier::spinoff_prover]
#[verifier::rlimit(40)]
pub fn validators(text: &str) -> (kept: Vec<Validator>)
    ensures
        validator_views(kept@) == validators_in(text@),
{
    let s = chars_of(text);
    let etag = chars_of("etag: ");
    let modified = chars_of("last-modified: ");
    proof {
        reveal_strlit("etag: ");
        reveal_strlit("last-modified: ");
    }
    let n: usize = s.len();
    let mut out: Vec<Validator> = Vec::new();
    let mut at: usize = 0;
    assert(s@.skip(0) =~= s@);
    assert(validator_views(out@) + validators_in(s@) =~= validators_in(s@));
    while at < n
        invariant
            at <= n,
            n == s@.len(),
            s@ == text@,
            etag@ == "etag: "@,
            modified@ == "last-modified: "@,
            etag@.len() == 6,
            modified@.len() == 15,
            validators_in(text@) == validator_views(out@) + validators_in(s@.skip(at as int)),
        decreases n - at,
    {
        let mut end: usize = at;
        while end < n && s[end] != '\n'
            invariant
                at <= end <= n,
                n == s@.len(),
                forall|k: int| at <= k < end ==> s@[k] != '\n',
            decreases n - end,
        {
            end = end + 1;
        }
        let ghost rest = s@.skip(at as int);
        let last: usize = if end < n && end > at && s[end - 1] == '\r' {
            end - 1
        } else {
            end
        };
        let ghost line = s@.subrange(at as int, last as int);
        proof {
            lemma_newline(rest, 0, end - at);
            if end < n {
                assert(rest.take(end - at) =~= s@.subrange(at as int, end as int));
                assert(chopped(rest.take(end - at)) =~= line);
                assert(rest.skip(end - at + 1) =~= s@.skip(end + 1));
            } else {
                assert(rest =~= line);
                assert(s@.skip(n as int) =~= Seq::<char>::empty());
            }
        }
        let ghost before = out@;
        if labelled(&s, &etag, at, last) {
            let value = String::from_str(text.substring_char(at + 6, last));
            assert(value@ =~= line.skip(6));
            out.push(Validator::Etag(value));
        } else if labelled(&s, &modified, at, last) {
            let value = String::from_str(text.substring_char(at + 15, last));
            assert(value@ =~= line.skip(15));
            out.push(Validator::LastModified(value));
        }
        let next: usize = if end < n {
            end + 1
        } else {
            n
        };
        proof {
            assert(validator_views(out@) =~= validator_views(before) + validator_in(line));
            assert(validators_in(rest) =~= validator_in(line) + validators_in(
                s@.skip(next as int),
            ));
            assert(validators_in(text@) =~= validator_views(out@) + validators_in(
                s@.skip(next as int),
            ));
        }
        at = next;
    }
    assert(s@.skip(n as int) =~= Seq::<char>::empty());
    assert(validator_views(out@) + validators_in(s@.skip(n as int)) =~= validator_views(out@));
    out
}

/// What becomes of a conditional request.
#[derive(Clone, Copy, PartialEq, Eq, Structural, Debug)]
pub enum Fetched {
    /// the cached copy is current
    Reuse,
    /// the response's body replaces the cached copy
    Store,
    /// the request failed, and a cached copy of unknown age is used
    ReuseStale,
    /// the request failed with nothing to fall back on
    Fail,
}

/// What becomes of a request: `status` is the response's, `None` if the
/// request failed, and `cached` whether there is a cached copy.
pub fn fetch_outcome(status: Option<u16>, cached: bool) -> (outcome: Fetched)
    ensures
        outcome == match status {
            Some(status) => if status == 304 {
                Fetched::Reuse
            } else {
                Fetched::Store
            },
            None => if cached {
                Fetched::ReuseStale
            } else {
                Fetched::Fail
            },
        },
{
    match status {
        Some(304) => Fetched::Reuse,
        Some(_) => Fetched::Store,
        None => if cached {
            Fetched::ReuseStale
        } else {
            Fetched::Fail
        },
    }
}

/// Whether a text has no newline in it.
pub open spec fn on_one_line(s: Seq<char>) -> bool {
    forall|i: int| 0 <= i < s.len() ==> s[i] != '\n'
}

/// A text is read line by line: what stands before its first newline, without a
/// carriage return at its end, and then what follows; a last line ends with the
/// text, carriage return and all.
pub proof fn lemma_validators_by_line(line: Seq<char>, rest: Seq<char>)
    requires
        on_one_line(line),
    ensures
        line.len() > 0 && line[line.len() - 1] == '\r' ==> validators_in(line + seq!['\n'] + rest)
            == validators_in(line.take(line.len() - 1)) + validators_in(rest),
        line.len() == 0 || line[line.len() - 1] != '\r' ==> validators_in(line + seq!['\n'] + rest)
            == validators_in(line) + validators_in(rest),
{
    let s = line + seq!['\n'] + rest;
    lemma_newline(s, 0, line.len() as int);
    assert(s.take(line.len() as int) =~= line);
    assert(s.skip(line.len() as int + 1) =~= rest);
    lemma_single_line(line);
    let cut = chopped(line);
    if line.len() > 0 && line.last() == '\r' {
        assert(cut =~= line.take(line.len() - 1));
    }
    lemma_single_line(cut);
}

/// A text without a newline is one line.
proof fn lemma_single_line(line: Seq<char>)
    requires
        on_one_line(line),
    ensures
        validators_in(line) == validator_in(line),
{
    if line.len() > 0 {
        lemma_newline(line, 0, line.len() as int);
    } else {
        reveal_strlit("etag: ");
        reveal_strlit("last-modified: ");
        assert(!stands_at(line, "etag: "@, 0));
        assert(!stands_at(line, "last-modified: "@, 0));
    }
}

/// A line keeps a validator where it starts with the validator's label, and the
/// value is the rest of it; a line without a label keeps none.
pub proof fn lemma_labels_say_what_is_kept(line: Seq<char>, value: Seq<char>)
    requires
        on_one_line(line),
        on_one_line(value),
    ensures
        validators_in(seq!['e', 't', 'a', 'g', ':', ' '] + value) == seq![
            ValidatorView::Etag(value),
        ],
        validators_in(
            seq!['l', 'a', 's', 't', '-', 'm', 'o', 'd', 'i', 'f', 'i', 'e', 'd', ':', ' '] + value,
        ) == seq![ValidatorView::LastModified(value)],
        !(line.len() >= 6 && line.take(6) == seq!['e', 't', 'a', 'g', ':', ' ']) && !(line.len()
            >= 15 && line.take(15) == seq![
            'l',
            'a',
            's',
            't',
            '-',
            'm',
            'o',
            'd',
            'i',
            'f',
            'i',
            'e',
            'd',
            ':',
            ' ',
        ]) ==> validators_in(line).len() == 0,
{
    reveal_strlit("etag: ");
    reveal_strlit("last-modified: ");
    let etag = seq!['e', 't', 'a', 'g', ':', ' '];
    let modified = seq!['l', 'a', 's', 't', '-', 'm', 'o', 'd', 'i', 'f', 'i', 'e', 'd', ':', ' '];
    assert("etag: "@ =~= etag);
    assert("last-modified: "@ =~= modified);
    let a = etag + value;
    let b = modified + value;
    assert forall|i: int| 0 <= i < a.len() implies a[i] != '\n' by {
        if i >= 6 {
            assert(a[i] == value[i - 6]);
        }
    }
    assert forall|i: int| 0 <= i < b.len() implies b[i] != '\n' by {
        if i >= 15 {
            assert(b[i] == value[i - 15]);
        }
    }
    lemma_single_line(a);
    lemma_single_line(b);
    lemma_single_line(line);
    assert(a.subrange(0, 6) =~= etag);
    assert(a.skip(6) =~= value);
    assert(b.subrange(0, 15) =~= modified);
    assert(b.skip(15) =~= value);
    assert(b.subrange(0, 6)[0] == 'l');
    assert(etag[0] == 'e');
    if stands_at(line, etag, 0) {
        assert(line.take(6) =~= line.subrange(0, 6));
    }
    if stands_at(line, modified, 0) {
        assert(line.take(15) =~= line.subrange(0, 15));
    }
}

} // verus!
