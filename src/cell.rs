//! Cell values and their text.
//!
//! A number with a fractional part is held as a [`Decimal`]: its sign and the
//! decimal digits on either side of the point. Truncating it to some number of
//! places is then a matter of keeping or padding digits.

use vstd::prelude::*;

verus! {

pub open spec fn is_digit(c: char) -> bool {
    '0' <= c && c <= '9'
}

pub open spec fn all_digits(s: Seq<char>) -> bool {
    forall|i: int| 0 <= i < s.len() ==> is_digit(#[trigger] s[i])
}

/// The digits of a whole number as it is written: at least one digit, and no
/// leading zero unless the number is zero itself.
pub open spec fn is_whole_part(s: Seq<char>) -> bool {
    s.len() > 0 && all_digits(s) && (s[0] == '0' ==> s.len() == 1)
}

pub open spec fn digit_char(d: int) -> char {
    if d == 0 {
        '0'
    } else if d == 1 {
        '1'
    } else if d == 2 {
        '2'
    } else if d == 3 {
        '3'
    } else if d == 4 {
        '4'
    } else if d == 5 {
        '5'
    } else if d == 6 {
        '6'
    } else if d == 7 {
        '7'
    } else if d == 8 {
        '8'
    } else {
        '9'
    }
}

/// The base-ten digits of `n`, most significant first.
pub open spec fn nat_text(n: nat) -> Seq<char>
    decreases n,
{
    if n < 10 {
        seq![digit_char(n as int)]
    } else {
        nat_text(n / 10) + seq![digit_char((n % 10) as int)]
    }
}

/// `i` in base ten, with a leading `-` when it is negative.
pub open spec fn int_text(i: int) -> Seq<char> {
    if i < 0 {
        seq!['-'] + nat_text((-i) as nat)
    } else {
        nat_text(i as nat)
    }
}

/// `n` zero digits.
pub open spec fn zeros(n: nat) -> Seq<char> {
    Seq::new(n, |_i: int| '0')
}

/// Exactly `places` fractional digits: those of `fraction` beyond `places`
/// are dropped, and zeros fill up where it has fewer.
pub open spec fn fraction_digits(fraction: Seq<char>, places: nat) -> Seq<char> {
    if places <= fraction.len() {
        fraction.take(places as int)
    } else {
        fraction + zeros((places - fraction.len()) as nat)
    }
}

/// The part of a number's text before its first `.`, or all of it.
pub open spec fn first_dot(s: Seq<char>) -> nat
    decreases s.len(),
{
    if s.len() == 0 || s[0] == '.' {
        0
    } else {
        1 + first_dot(s.drop_first())
    }
}

/// A number's text without its leading `-`.
pub open spec fn unsigned_part(s: Seq<char>) -> Seq<char> {
    if s.len() > 0 && s[0] == '-' {
        s.drop_first()
    } else {
        s
    }
}

/// The digits before the point.
pub open spec fn whole_of(s: Seq<char>) -> Seq<char> {
    unsigned_part(s).take(first_dot(unsigned_part(s)) as int)
}

/// The digits after the point; none where there is no point.
pub open spec fn fraction_of(s: Seq<char>) -> Seq<char> {
    if first_dot(unsigned_part(s)) < unsigned_part(s).len() {
        unsigned_part(s).skip(first_dot(unsigned_part(s)) + 1int)
    } else {
        Seq::empty()
    }
}

/// A decimal number in plain notation: an optional `-`, the whole part, and
/// optionally a `.` followed by one or more digits (`-12.50`, `0.125`, `7`).
pub open spec fn is_decimal_text(s: Seq<char>) -> bool {
    let b = unsigned_part(s);
    let k = first_dot(b);
    is_whole_part(b.take(k as int)) && (k == b.len() || (k + 1 < b.len() && all_digits(
        b.skip(k + 1int),
    )))
}

/// A number written with decimal digits on either side of the point.
#[derive(Debug, Clone)]
pub struct Decimal {
    pub negative: bool,
    pub whole: String,
    pub fraction: String,
}

impl Decimal {
    /// The parts hold digits, and the whole part is written without leading
    /// zeros.
    pub open spec fn wf(&self) -> bool {
        is_whole_part(self.whole@) && all_digits(self.fraction@)
    }

    /// The number cut after `places` fractional digits, with exactly that
    /// many of them (and no point where there are none).
    pub open spec fn truncated_text(&self, places: nat) -> Seq<char> {
        (if self.negative {
            seq!['-']
        } else {
            Seq::empty()
        }) + self.whole@ + (if places == 0 {
            Seq::empty()
        } else {
            seq!['.'] + fraction_digits(self.fraction@, places)
        })
    }

    /// Reads a number in plain decimal notation (`-12.50`); `None` where the
    /// text is not one.
    pub fn parse(text: &str) -> (r: Option<Decimal>)
        ensures
            r is Some <==> is_decimal_text(text@),
            r matches Some(d) ==> {
                &&& d.wf()
                &&& d.negative == (text@.len() > 0 && text@[0] == '-')
                &&& d.whole@ == whole_of(text@)
                &&& d.fraction@ == fraction_of(text@)
            },
    {
        let n = text.unicode_len();
        let start: usize = if n > 0 && text.get_char(0) == '-' {
            1
        } else {
            0
        };
        let ghost b = unsigned_part(text@);
        proof {
            assert(b =~= text@.skip(start as int));
            lemma_first_dot_len(b);
        }
        let mut k: usize = start;
        while k < n && text.get_char(k) != '.'
            invariant
                start <= k <= n,
                n == text@.len(),
                b == text@.skip(start as int),
                first_dot(b) == (k - start) + first_dot(text@.skip(k as int)),
            decreases n - k,
        {
            proof {
                assert(text@.skip(k as int).drop_first() =~= text@.skip(k + 1));
            }
            k = k + 1;
        }
        proof {
            assert(first_dot(text@.skip(k as int)) == 0);
            assert(b.take(k - start) =~= text@.subrange(start as int, k as int));
            assert(k < n ==> b.skip(k - start + 1) =~= text@.skip(k + 1));
        }
        let whole = text.substring_char(start, k);
        if !is_whole_text(whole) {
            return None;
        }
        if k == n {
            return Some(Decimal { negative: start == 1, whole: String::from_str(whole), fraction: String::new() });
        }
        if k + 1 == n {
            return None;
        }
        let fraction = text.substring_char(k + 1, n);
        proof {
            assert(fraction@ =~= text@.skip(k + 1));
        }
        if !is_digit_text(fraction) {
            return None;
        }
        Some(Decimal { negative: start == 1, whole: String::from_str(whole), fraction: String::from_str(fraction) })
    }

    /// The number cut (not rounded) after `places` fractional digits, written
    /// with exactly that many.
    pub fn to_text_with_places(&self, places: usize) -> (r: String)
        ensures
            r@ == self.truncated_text(places as nat),
    {
        proof {
            reveal_strlit("-");
            reveal_strlit(".");
            reveal_strlit("0");
        }
        let mut out = String::new();
        if self.negative {
            out.append("-");
        }
        out.append(self.whole.as_str());
        let ghost head = out@;
        if places == 0 {
            proof {
                assert(out@ =~= self.truncated_text(0));
            }
            return out;
        }
        out.append(".");
        let n = self.fraction.as_str().unicode_len();
        if places <= n {
            out.append(self.fraction.as_str().substring_char(0, places));
        } else {
            out.append(self.fraction.as_str());
            let mut i: usize = n;
            while i < places
                invariant
                    n <= i <= places,
                    n == self.fraction@.len(),
                    out@ == head + seq!['.'] + self.fraction@ + zeros((i - n) as nat),
                decreases places - i,
            {
                let ghost prev = out@;
                out.append("0");
                proof {
                    reveal_strlit("0");
                    assert("0"@ =~= seq!['0']);
                    assert(out@ == prev + seq!['0']);
                    assert(zeros((i - n) as nat) + seq!['0'] =~= zeros((i + 1 - n) as nat));
                    assert(out@ =~= head + seq!['.'] + self.fraction@ + zeros((i + 1 - n) as nat));
                }
                i = i + 1;
            }
        }
        proof {
            assert(out@ =~= self.truncated_text(places as nat));
        }
        out
    }
}

/// Truncation, not rounding: showing fewer fractional digits only cuts the
/// text, so the text with fewer digits is the start of the text with more.
pub proof fn fewer_places_cut_the_text(d: Decimal, fewer: nat, more: nat)
    requires
        0 < fewer <= more,
    ensures
        d.truncated_text(fewer) == d.truncated_text(more).take(d.truncated_text(fewer).len() as int),
{
    let f = d.fraction@;
    let short = fraction_digits(f, fewer);
    let long = fraction_digits(f, more);
    assert(short.len() == fewer);
    assert(long.len() == more);
    assert forall|i: int| 0 <= i < fewer implies short[i] == long[i] by {
        if i < f.len() {
            assert(short[i] == f[i]);
            assert(long[i] == f[i]);
        } else {
            assert(short[i] == '0');
            assert(long[i] == '0');
        }
    }
    assert(d.truncated_text(fewer) =~= d.truncated_text(more).take(d.truncated_text(fewer).len() as int));
}

proof fn lemma_first_dot_len(s: Seq<char>)
    ensures
        first_dot(s) <= s.len(),
        first_dot(s) < s.len() ==> s[first_dot(s) as int] == '.',
    decreases s.len(),
{
    if s.len() > 0 && s[0] != '.' {
        lemma_first_dot_len(s.drop_first());
    }
}

fn is_digit_text(s: &str) -> (r: bool)
    ensures
        r == all_digits(s@),
{
    let n = s.unicode_len();
    let mut i: usize = 0;
    while i < n
        invariant
            n == s@.len(),
            i <= n,
            forall|j: int| 0 <= j < i ==> is_digit(#[trigger] s@[j]),
        decreases n - i,
    {
        let c = s.get_char(i);
        if !('0' <= c && c <= '9') {
            return false;
        }
        i = i + 1;
    }
    true
}

fn is_whole_text(s: &str) -> (r: bool)
    ensures
        r == is_whole_part(s@),
{
    let n = s.unicode_len();
    if n == 0 {
        return false;
    }
    if s.get_char(0) == '0' && n > 1 {
        return false;
    }
    is_digit_text(s)
}

/// Relies on the standard library's `Display` for `char`, through
/// `to_string`: the text of the one character.
#[verifier::external_body]
pub(crate) fn char_text(c: char) -> (r: String)
    ensures
        r@ == seq![c],
{
    c.to_string()
}

fn digit(d: u64) -> (c: char)
    requires
        d < 10,
    ensures
        c == digit_char(d as int),
{
    if d == 0 {
        '0'
    } else if d == 1 {
        '1'
    } else if d == 2 {
        '2'
    } else if d == 3 {
        '3'
    } else if d == 4 {
        '4'
    } else if d == 5 {
        '5'
    } else if d == 6 {
        '6'
    } else if d == 7 {
        '7'
    } else if d == 8 {
        '8'
    } else {
        '9'
    }
}

/// `n` in base ten.
fn nat_to_text(n: u64) -> (r: String)
    ensures
        r@ == nat_text(n as nat),
    decreases n,
{
    if n < 10 {
        char_text(digit(n))
    } else {
        let mut r = nat_to_text(n / 10);
        r.append(char_text(digit(n % 10)).as_str());
        r
    }
}

/// `i` in base ten, with a leading `-` when it is negative.
fn int_to_text(i: i64) -> (r: String)
    ensures
        r@ == int_text(i as int),
{
    if i < 0 {
        let magnitude: u64 = (0i128 - i as i128) as u64;
        let mut r = char_text('-');
        r.append(nat_to_text(magnitude).as_str());
        r
    } else {
        nat_to_text(i as u64)
    }
}

/// One cell of a table.
#[derive(Debug, Clone)]
pub enum CellValue {
    Str(String),
    Int(i64),
    Float(Decimal),
}

impl CellValue {
    /// The cell's text: a text as it is, an integer in base ten, a number with
    /// a fraction cut after `places` digits.
    pub open spec fn text(&self, places: nat) -> Seq<char> {
        match self {
            CellValue::Str(s) => s@,
            CellValue::Int(i) => int_text(*i as int),
            CellValue::Float(d) => d.truncated_text(places),
        }
    }

    pub fn to_string_with_precision(&self, decimal_places: usize) -> (r: String)
        ensures
            r@ == self.text(decimal_places as nat),
    {
        match self {
            CellValue::Str(s) => s.clone(),
            CellValue::Int(i) => int_to_text(*i),
            CellValue::Float(d) => d.to_text_with_places(decimal_places),
        }
    }

    /// The cell's text with two fractional places.
    pub fn to_string(&self) -> (r: String)
        ensures
            r@ == self.text(2),
    {
        self.to_string_with_precision(2)
    }
}

} // verus!
