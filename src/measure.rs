//! How wide a piece of text shows on a terminal.
//!
//! Escape sequences of the form `ESC [ ... final` (colours and styles) are
//! removed first; what is left is measured with the Unicode width tables.

use unicode_width::UnicodeWidthStr;
use vstd::prelude::*;

verus! {

/// A character that may stand between `ESC [` and the final character of a
/// control sequence (parameter and intermediate characters).
pub open spec fn is_sequence_body(c: char) -> bool {
    '\u{20}' <= c && c <= '\u{3f}'
}

/// A character that ends a control sequence.
pub open spec fn is_sequence_final(c: char) -> bool {
    '\u{40}' <= c && c <= '\u{7e}'
}

/// How many characters at the start of `s` may stand inside a control sequence.
pub open spec fn body_run(s: Seq<char>) -> nat
    decreases s.len(),
{
    if s.len() > 0 && is_sequence_body(s[0]) {
        1 + body_run(s.drop_first())
    } else {
        0
    }
}

/// The length of the control sequence that `s` starts with, or 0 where it
/// starts with none.
pub open spec fn escape_len(s: Seq<char>) -> nat {
    if s.len() >= 2 && s[0] == '\u{1b}' && s[1] == '[' && 2 + body_run(s.skip(2)) < s.len()
        && is_sequence_final(s[2 + body_run(s.skip(2)) as int]) {
        3 + body_run(s.skip(2))
    } else {
        0
    }
}

/// The text of `s` with every control sequence taken out.
pub open spec fn visible(s: Seq<char>) -> Seq<char>
    decreases s.len(),
{
    if s.len() == 0 {
        Seq::empty()
    } else if escape_len(s) > 0 {
        visible(s.skip(escape_len(s) as int))
    } else {
        seq![s[0]] + visible(s.drop_first())
    }
}

/// The column count that the Unicode width tables give a text.
pub uninterp spec fn unicode_columns(s: Seq<char>) -> usize;

/// The number of terminal columns that `s` takes once its control sequences
/// are taken out.
pub open spec fn display_width(s: Seq<char>) -> usize {
    unicode_columns(visible(s))
}

/// Relies on `unicode_width::UnicodeWidthStr::width` for the column count of a
/// text, which depends on its characters alone.
#[verifier::external_body]
fn unicode_width(s: &str) -> (r: usize)
    ensures
        r == unicode_columns(s@),
{
    UnicodeWidthStr::width(s)
}

proof fn lemma_body_run_len(s: Seq<char>)
    ensures
        body_run(s) <= s.len(),
    decreases s.len(),
{
    if s.len() > 0 && is_sequence_body(s[0]) {
        lemma_body_run_len(s.drop_first());
    }
}

/// The length of the control sequence that starts at position `i` of `s`, or 0.
fn escape_len_at(s: &str, n: usize, i: usize) -> (r: usize)
    requires
        n == s@.len(),
        i <= n,
    ensures
        r == escape_len(s@.skip(i as int)),
        r <= n - i,
{
    let ghost t = s@.skip(i as int);
    proof {
        lemma_body_run_len(t.skip(2));
    }
    if n - i < 2 || s.get_char(i) != '\u{1b}' || s.get_char(i + 1) != '[' {
        return 0;
    }
    let mut j: usize = i + 2;
    proof {
        assert(t.skip(2) =~= s@.skip(i + 2));
    }
    while j < n && ('\u{20}' <= s.get_char(j) && s.get_char(j) <= '\u{3f}')
        invariant
            i + 2 <= j <= n,
            n == s@.len(),
            t == s@.skip(i as int),
            forall|k: int| i + 2 <= k < j ==> is_sequence_body(#[trigger] s@[k]),
            body_run(t.skip(2)) == (j - i - 2) + body_run(s@.skip(j as int)),
        decreases n - j,
    {
        proof {
            assert(s@.skip(j as int).drop_first() =~= s@.skip(j + 1));
        }
        j = j + 1;
    }
    proof {
        assert(body_run(s@.skip(j as int)) == 0);
        assert(t.skip(2) =~= s@.skip(i + 2));
    }
    if j < n && ('\u{40}' <= s.get_char(j) && s.get_char(j) <= '\u{7e}') {
        j + 1 - i
    } else {
        0
    }
}

proof fn lemma_visible_step(s: Seq<char>, i: int)
    requires
        0 <= i < s.len(),
    ensures
        escape_len(s.skip(i)) > 0 ==> visible(s.skip(i)) == visible(s.skip(i + escape_len(s.skip(i)))),
        escape_len(s.skip(i)) == 0 ==> visible(s.skip(i)) == seq![s[i]] + visible(s.skip(i + 1)),
{
    let t = s.skip(i);
    let e = escape_len(t);
    lemma_body_run_len(t.skip(2));
    assert(t.skip(e as int) =~= s.skip(i + e));
    assert(t.drop_first() =~= s.skip(i + 1));
}

/// `e` is exactly one control sequence.
pub open spec fn is_control_sequence(e: Seq<char>) -> bool {
    e.len() > 0 && escape_len(e) == e.len()
}

/// `t` holds no escape character.
pub open spec fn has_no_escape(t: Seq<char>) -> bool {
    forall|i: int| 0 <= i < t.len() ==> t[i] != '\u{1b}'
}

proof fn lemma_body_run_prefix(a: Seq<char>, b: Seq<char>)
    requires
        body_run(a) < a.len(),
    ensures
        body_run(a + b) == body_run(a),
    decreases a.len(),
{
    assert((a + b)[0] == a[0]);
    if is_sequence_body(a[0]) {
        assert((a + b).drop_first() =~= a.drop_first() + b);
        lemma_body_run_prefix(a.drop_first(), b);
    }
}

proof fn lemma_sequence_then(e: Seq<char>, x: Seq<char>)
    requires
        is_control_sequence(e),
    ensures
        visible(e + x) == visible(x),
{
    let k = body_run(e.skip(2)) as int;
    assert((e + x).skip(2) =~= e.skip(2) + x);
    assert(e.skip(2)[k] == e[2 + k]);
    lemma_body_run_prefix(e.skip(2), x);
    assert((e + x)[2 + k] == e[2 + k]);
    assert(escape_len(e + x) == e.len());
    assert((e + x).skip(e.len() as int) =~= x);
}

proof fn lemma_plain_then(t: Seq<char>, rest: Seq<char>)
    requires
        has_no_escape(t),
    ensures
        visible(t + rest) == t + visible(rest),
    decreases t.len(),
{
    if t.len() == 0 {
        assert(t + rest =~= rest);
        assert(t + visible(rest) =~= visible(rest));
    } else {
        assert((t + rest)[0] == t[0]);
        assert((t + rest).drop_first() =~= t.drop_first() + rest);
        lemma_plain_then(t.drop_first(), rest);
        assert(t + visible(rest) =~= seq![t[0]] + (t.drop_first() + visible(rest)));
    }
}

/// Colour codes take no columns: a text without escape characters, wrapped
/// in two control sequences, shows as the text alone and is exactly as wide.
pub proof fn control_sequences_take_no_width(open: Seq<char>, t: Seq<char>, close: Seq<char>)
    requires
        is_control_sequence(open),
        is_control_sequence(close),
        has_no_escape(t),
    ensures
        visible(open + t + close) == t,
        display_width(open + t + close) == display_width(t),
{
    assert(open + t + close =~= open + (t + close));
    lemma_sequence_then(open, t + close);
    lemma_plain_then(t, close);
    assert(close =~= close + Seq::<char>::empty());
    lemma_sequence_then(close, Seq::<char>::empty());
    assert(visible(Seq::<char>::empty()) == Seq::<char>::empty());
    assert(t + Seq::<char>::empty() =~= t);
    lemma_plain_then(t, Seq::<char>::empty());
}

/// The text of `s` with its control sequences taken out.
pub fn strip_escapes(s: &str) -> (r: String)
    ensures
        r@ == visible(s@),
{
    let n = s.unicode_len();
    let mut out = String::new();
    let mut start: usize = 0;
    let mut i: usize = 0;
    proof {
        assert(s@.skip(0) =~= s@);
        assert(out@ + s@.subrange(0, 0) =~= Seq::<char>::empty());
    }
    while i < n
        invariant
            n == s@.len(),
            start <= i <= n,
            visible(s@) == out@ + s@.subrange(start as int, i as int) + visible(s@.skip(i as int)),
        decreases n - i,
    {
        let e = escape_len_at(s, n, i);
        proof {
            lemma_visible_step(s@, i as int);
        }
        if e > 0 {
            let run = s.substring_char(start, i);
            out.append(run);
            proof {
                assert(s@.subrange(start as int, i as int) =~= s@.subrange(start as int, i as int)
                    + Seq::<char>::empty());
            }
            i = i + e;
            start = i;
            proof {
                assert(s@.subrange(start as int, i as int) =~= Seq::<char>::empty());
            }
        } else {
            proof {
                assert(s@.subrange(start as int, i + 1) =~= s@.subrange(start as int, i as int)
                    + seq![s@[i as int]]);
            }
            i = i + 1;
        }
    }
    let run = s.substring_char(start, n);
    out.append(run);
    proof {
        assert(s@.skip(n as int) =~= Seq::<char>::empty());
        assert(visible(s@.skip(n as int)) == Seq::<char>::empty());
        assert(out@ =~= visible(s@));
    }
    out
}

/// The number of terminal columns that `s` takes: control sequences count
/// for nothing, the visible text as the Unicode width tables say.
pub fn text_width(s: &str) -> (r: usize)
    ensures
        r == display_width(s@),
{
    let plain = strip_escapes(s);
    unicode_width(plain.as_str())
}

} // verus!
