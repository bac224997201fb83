//! The lexical grammar: byte classes and the matchers built directly on them.
//!
//! Every matcher is a pure function of a byte slice. On success it hands back
//! the unconsumed remainder and the exact span it matched; on failure it says
//! where it stopped and whether it stopped only because the input ended.

use vstd::prelude::*;
use vstd::slice::slice_subrange;

verus! {

pub const HTAB: u8 = 0x09;

pub const LF: u8 = 0x0a;

pub const CR: u8 = 0x0d;

pub const SP: u8 = 0x20;

pub const DQUOTE: u8 = 0x22;

pub const COLON: u8 = 0x3a;

pub const BACKSLASH: u8 = 0x5c;

/// The character classes of the message grammar.
#[derive(Clone, Copy, Debug, PartialEq, Eq)]
pub enum ByteClass {
    /// `0`-`9`
    Digit,
    /// `0`-`9`, `A`-`F`, `a`-`f`
    HexDigit,
    /// `A`-`Z`, `a`-`z`
    Alpha,
    /// A token character: a letter, a digit, or one of ``!#$%&'*+-.^_`|~``.
    Tchar,
    /// One of `()<>@,;:\"/[]?={}`, space or horizontal tab.
    Separator,
    /// A visible ASCII character, 0x21 to 0x7E.
    Vchar,
    /// An eight-bit byte, 0x80 to 0xFF.
    ObsText,
    /// `Vchar` or `ObsText`.
    FieldVchar,
    /// Space or horizontal tab.
    Blank,
    /// What a reason phrase is made of: `Blank`, `Vchar` or `ObsText`.
    Reason,
    /// Any byte but a space.
    NotSpace,
    /// Text inside quotes: CR, LF, `Blank`, `Vchar` or `ObsText`, but not the double quote.
    Qdtext,
}

pub open spec fn is_digit(b: u8) -> bool {
    '0' as u8 <= b <= '9' as u8
}

pub open spec fn is_alpha(b: u8) -> bool {
    'A' as u8 <= b <= 'Z' as u8 || 'a' as u8 <= b <= 'z' as u8
}

pub open spec fn is_hex_digit(b: u8) -> bool {
    is_digit(b) || 'A' as u8 <= b <= 'F' as u8 || 'a' as u8 <= b <= 'f' as u8
}

pub open spec fn is_tchar(b: u8) -> bool {
    is_alpha(b) || is_digit(b) || b == '!' as u8 || b == '#' as u8 || b == '$' as u8 || b
        == '%' as u8 || b == '&' as u8 || b == '\'' as u8 || b == '*' as u8 || b == '+' as u8 || b
        == '-' as u8 || b == '.' as u8 || b == '^' as u8 || b == '_' as u8 || b == '`' as u8 || b
        == '|' as u8 || b == '~' as u8
}

pub open spec fn is_separator(b: u8) -> bool {
    b == '(' as u8 || b == ')' as u8 || b == '<' as u8 || b == '>' as u8 || b == '@' as u8 || b
        == ',' as u8 || b == ';' as u8 || b == COLON || b == BACKSLASH || b == DQUOTE || b
        == '/' as u8 || b == '[' as u8 || b == ']' as u8 || b == '?' as u8 || b == '=' as u8 || b
        == '{' as u8 || b == '}' as u8 || b == SP || b == HTAB
}

pub open spec fn is_vchar(b: u8) -> bool {
    0x21 <= b <= 0x7e
}

pub open spec fn is_obs_text(b: u8) -> bool {
    0x80 <= b
}

pub open spec fn is_blank(b: u8) -> bool {
    b == SP || b == HTAB
}

impl ByteClass {
    /// Whether byte `b` belongs to the class.
    pub open spec fn has(self, b: u8) -> bool {
        match self {
            ByteClass::Digit => is_digit(b),
            ByteClass::HexDigit => is_hex_digit(b),
            ByteClass::Alpha => is_alpha(b),
            ByteClass::Tchar => is_tchar(b),
            ByteClass::Separator => is_separator(b),
            ByteClass::Vchar => is_vchar(b),
            ByteClass::ObsText => is_obs_text(b),
            ByteClass::FieldVchar => is_vchar(b) || is_obs_text(b),
            ByteClass::Blank => is_blank(b),
            ByteClass::Reason => is_blank(b) || is_vchar(b) || is_obs_text(b),
            ByteClass::NotSpace => b != SP,
            ByteClass::Qdtext => b != DQUOTE && (b == CR || b == LF || is_blank(b) || is_vchar(b)
                || is_obs_text(b)),
        }
    }

    pub fn contains(self, b: u8) -> (r: bool)
        ensures
            r == self.has(b),
    {
        let digit = 0x30 <= b && b <= 0x39;
        let alpha = (0x41 <= b && b <= 0x5a) || (0x61 <= b && b <= 0x7a);
        let blank = b == SP || b == HTAB;
        let visible = 0x21 <= b && b <= 0x7e;
        let high = b >= 0x80;
        match self {
            ByteClass::Digit => digit,
            ByteClass::HexDigit => digit || (0x41 <= b && b <= 0x46) || (0x61 <= b && b <= 0x66),
            ByteClass::Alpha => alpha,
            ByteClass::Tchar => alpha || digit || b == 0x21 || (0x23 <= b && b <= 0x27) || b
                == 0x2a || b == 0x2b || b == 0x2d || b == 0x2e || b == 0x5e || b == 0x5f || b
                == 0x60 || b == 0x7c || b == 0x7e,
            ByteClass::Separator => b == 0x28 || b == 0x29 || b == 0x3c || b == 0x3e || b == 0x40
                || b == 0x2c || b == 0x3b || b == COLON || b == BACKSLASH || b == DQUOTE || b
                == 0x2f || b == 0x5b || b == 0x5d || b == 0x3f || b == 0x3d || b == 0x7b || b
                == 0x7d || blank,
            ByteClass::Vchar => visible,
            ByteClass::ObsText => high,
            ByteClass::FieldVchar => visible || high,
            ByteClass::Blank => blank,
            ByteClass::Reason => blank || visible || high,
            ByteClass::NotSpace => b != SP,
            ByteClass::Qdtext => b != DQUOTE && (b == CR || b == LF || blank || visible || high),
        }
    }
}

/// Which rule of the grammar gave up.
#[derive(Clone, Copy, Debug, PartialEq, Eq, Structural)]
pub enum GrammarCode {
    Literal,
    Digit,
    HexDigit,
    Tchar,
    Token,
    Htab,
    Separator,
    Vchar,
    ObsText,
    FieldVchar,
    FieldContent,
    QuotedString,
    Method,
    HttpVersion,
    StatusCode,
    HeaderLine,
    Target,
}

/// A failed match: the input from the point where the rule could not go on,
/// the rule, and whether the input simply ended there.
#[derive(Debug)]
pub struct GrammarError<'a> {
    pub input: &'a [u8],
    pub code: GrammarCode,
    pub incomplete: bool,
}

/// What a matcher returns: the remainder and the matched span, in that order.
pub type Matched<'a> = Result<(&'a [u8], &'a [u8]), GrammarError<'a>>;

/// The outcome of a rule on a byte sequence, as a mathematical value.
///
/// `Match { len }` says the rule matched the first `len` bytes. `Fail { at,
/// short }` says it could not go on at offset `at`; `short` is true when the
/// input ended there and every byte seen up to then was acceptable.
pub enum Scan {
    Match { len: nat },
    Fail { at: nat, short: bool },
}

/// `r` is a match of the first `len` bytes of `input`: the span is those
/// bytes, the remainder is what follows them.
pub open spec fn taken(input: Seq<u8>, r: Matched, len: nat) -> bool {
    &&& len <= input.len()
    &&& r matches Ok((rest, found))
    &&& found@ == input.take(len as int)
    &&& rest@ == input.skip(len as int)
}

/// `r` is what a matcher for a rule with outcome `scan` and code `code` must
/// return on `input`.
pub open spec fn scanned(input: Seq<u8>, r: Matched, scan: Scan, code: GrammarCode) -> bool {
    match scan {
        Scan::Match { len } => taken(input, r, len),
        Scan::Fail { at, short } => {
            &&& at <= input.len()
            &&& r matches Err(e)
            &&& e.input@ == input.skip(at as int)
            &&& e.code == code
            &&& e.incomplete == short
        },
    }
}

/// Moves a scan of `s.skip(by)` back into the coordinates of `s`.
pub open spec fn shift(by: nat, scan: Scan) -> Scan {
    match scan {
        Scan::Match { len } => Scan::Match { len: by + len },
        Scan::Fail { at, short } => Scan::Fail { at: by + at, short },
    }
}

impl Scan {
    /// Where a match ends; 0 for a failure.
    pub open spec fn end(self) -> nat {
        match self {
            Scan::Match { len } => len,
            Scan::Fail { .. } => 0,
        }
    }
}

/// One rule after another: `first` is the scan of the input, `second` the
/// scan of what `first` left, that is of the input without its first
/// `first.end()` bytes.
pub open spec fn chain(first: Scan, second: Scan) -> Scan {
    match first {
        Scan::Match { len } => shift(len, second),
        Scan::Fail { .. } => first,
    }
}

/// Whether a rule's outcome on an input of `len` bytes, `before`, is settled
/// against its outcome `after` on the same bytes with more behind them: a
/// match that ends before the input does stays as it is, and so does a
/// failure that is not for want of input, which always lies at a byte that
/// is there.
pub open spec fn settled(before: Scan, after: Scan, len: nat) -> bool {
    match before {
        Scan::Match { len: n } => n <= len && (n < len ==> after == before),
        Scan::Fail { at, short } => at <= len && (!short ==> at < len && after == before),
    }
}

/// Two settled rules in a chain are settled.
pub proof fn lemma_chain_settled(
    first: Scan,
    first_after: Scan,
    second: Scan,
    second_after: Scan,
    len: nat,
)
    requires
        settled(first, first_after, len),
        first matches Scan::Match { len: n } ==> settled(second, second_after, (len - n) as nat),
    ensures
        settled(chain(first, second), chain(first_after, second_after), len),
{
}

/// The number of leading bytes of `s` that belong to class `c`.
pub open spec fn run(s: Seq<u8>, c: ByteClass) -> nat
    decreases s.len(),
{
    if s.len() > 0 && c.has(s[0]) {
        1 + run(s.skip(1), c)
    } else {
        0
    }
}

/// A run is the longest prefix made of the class: it fits in the input, all
/// of it is in the class, and the byte after it, if any, is not.
pub proof fn lemma_run(s: Seq<u8>, c: ByteClass)
    ensures
        run(s, c) <= s.len(),
        forall|i: int| 0 <= i < run(s, c) ==> c.has(#[trigger] s[i]),
        run(s, c) < s.len() ==> !c.has(s[run(s, c) as int]),
    decreases s.len(),
{
    if s.len() > 0 && c.has(s[0]) {
        let t = s.skip(1);
        lemma_run(t, c);
        assert forall|i: int| 0 <= i < run(s, c) implies c.has(#[trigger] s[i]) by {
            if i > 0 {
                assert(s[i] == t[i - 1]);
            }
        }
        if run(s, c) < s.len() {
            assert(s[run(s, c) as int] == t[run(t, c) as int]);
        }
    }
}

/// Any length with the three properties of `lemma_run` is the run.
pub proof fn lemma_run_is(s: Seq<u8>, c: ByteClass, n: nat)
    requires
        n <= s.len(),
        forall|i: int| 0 <= i < n ==> c.has(#[trigger] s[i]),
        n < s.len() ==> !c.has(s[n as int]),
    ensures
        run(s, c) == n,
    decreases s.len(),
{
    if n > 0 {
        let t = s.skip(1);
        assert(c.has(s[0]));
        assert forall|i: int| 0 <= i < n - 1 implies c.has(#[trigger] t[i]) by {
            assert(t[i] == s[i + 1]);
        }
        if n - 1 < t.len() {
            assert(t[n - 1] == s[n as int]);
        }
        lemma_run_is(t, c, (n - 1) as nat);
    }
}

/// A run that ends before the input does is not changed by bytes that follow.
pub proof fn lemma_run_extend(s: Seq<u8>, more: Seq<u8>, c: ByteClass)
    requires
        run(s, c) < s.len(),
    ensures
        run(s + more, c) == run(s, c),
{
    lemma_run(s, c);
    let n = run(s, c);
    assert forall|i: int| 0 <= i < n implies c.has(#[trigger] (s + more)[i]) by {
        assert((s + more)[i] == s[i]);
    }
    assert((s + more)[n as int] == s[n as int]);
    lemma_run_is(s + more, c, n);
}

/// A run of `a + b` where all of `a` is in the class goes on into `b`.
pub proof fn lemma_run_through(a: Seq<u8>, b: Seq<u8>, c: ByteClass)
    requires
        forall|i: int| 0 <= i < a.len() ==> c.has(#[trigger] a[i]),
    ensures
        run(a + b, c) == a.len() + run(b, c),
{
    lemma_run(b, c);
    let n = a.len() + run(b, c);
    let s = a + b;
    assert forall|i: int| 0 <= i < n implies c.has(#[trigger] s[i]) by {
        if i < a.len() {
            assert(s[i] == a[i]);
        } else {
            assert(s[i] == b[i - a.len()]);
        }
    }
    if n < s.len() {
        assert(s[n as int] == b[run(b, c) as int]);
    }
    lemma_run_is(s, c, n);
}

/// One byte of class `c`.
pub open spec fn one_of(s: Seq<u8>, c: ByteClass) -> Scan {
    if s.len() == 0 {
        Scan::Fail { at: 0, short: true }
    } else if c.has(s[0]) {
        Scan::Match { len: 1 }
    } else {
        Scan::Fail { at: 0, short: false }
    }
}

/// One or more bytes of class `c`, as many as there are.
pub open spec fn one_or_more(s: Seq<u8>, c: ByteClass) -> Scan {
    if run(s, c) > 0 {
        Scan::Match { len: run(s, c) }
    } else {
        Scan::Fail { at: 0, short: s.len() == 0 }
    }
}

/// Zero or more bytes of class `c`, as many as there are. Never fails.
pub open spec fn zero_or_more(s: Seq<u8>, c: ByteClass) -> Scan {
    Scan::Match { len: run(s, c) }
}

/// Whether `a` is the beginning of `b`.
pub open spec fn starts(b: Seq<u8>, a: Seq<u8>) -> bool {
    a.len() <= b.len() && b.take(a.len() as int) == a
}

/// The fixed byte string `lit`. The input is short when it ends inside it.
pub open spec fn literal_scan(s: Seq<u8>, lit: Seq<u8>) -> Scan {
    if starts(s, lit) {
        Scan::Match { len: lit.len() }
    } else {
        Scan::Fail { at: 0, short: s.len() < lit.len() && starts(lit, s) }
    }
}

/// `(s + more).skip(n)` is `s.skip(n) + more` while `n` lies inside `s`.
pub proof fn lemma_skip_add(s: Seq<u8>, more: Seq<u8>, n: nat)
    requires
        n <= s.len(),
    ensures
        (s + more).skip(n as int) == s.skip(n as int) + more,
        (s + more).take(n as int) == s.take(n as int),
{
    assert((s + more).skip(n as int) =~= s.skip(n as int) + more);
    assert((s + more).take(n as int) =~= s.take(n as int));
}

/// A run of one or more is settled.
pub proof fn lemma_one_or_more_settled(s: Seq<u8>, more: Seq<u8>, c: ByteClass)
    ensures
        settled(one_or_more(s, c), one_or_more(s + more, c), s.len()),
{
    lemma_run(s, c);
    if run(s, c) < s.len() {
        lemma_run_extend(s, more, c);
    }
}

/// A run of zero or more is settled.
pub proof fn lemma_zero_or_more_settled(s: Seq<u8>, more: Seq<u8>, c: ByteClass)
    ensures
        settled(zero_or_more(s, c), zero_or_more(s + more, c), s.len()),
{
    lemma_run(s, c);
    if run(s, c) < s.len() {
        lemma_run_extend(s, more, c);
    }
}

/// Where `lit` stands at the head of `s`, each of its bytes is there.
pub proof fn lemma_starts_index(s: Seq<u8>, lit: Seq<u8>, i: int)
    requires
        starts(s, lit),
        0 <= i < lit.len(),
    ensures
        s[i] == lit[i],
{
    assert(s.take(lit.len() as int)[i] == s[i]);
}

/// A fixed byte string is settled: once found it stays, and once ruled out
/// it stays ruled out.
pub proof fn lemma_literal_settled(s: Seq<u8>, more: Seq<u8>, lit: Seq<u8>)
    ensures
        settled(literal_scan(s, lit), literal_scan(s + more, lit), s.len()),
        literal_scan(s, lit) is Match ==> literal_scan(s + more, lit) == literal_scan(s, lit),
{
    let t = s + more;
    if starts(s, lit) {
        assert(t.take(lit.len() as int) =~= s.take(lit.len() as int));
    } else {
        if !(s.len() < lit.len() && starts(lit, s)) {
            if lit.len() <= s.len() {
                assert(t.take(lit.len() as int) =~= s.take(lit.len() as int));
            } else {
                if starts(t, lit) {
                    assert(lit.take(s.len() as int) =~= s) by {
                        assert forall|i: int| 0 <= i < s.len() implies lit[i] == s[i] by {
                            lemma_starts_index(t, lit, i);
                            assert(t[i] == s[i]);
                        }
                    }
                }
                if t.len() < lit.len() && starts(lit, t) {
                    assert(lit.take(s.len() as int) =~= s) by {
                        assert forall|i: int| 0 <= i < s.len() implies lit[i] == s[i] by {
                            lemma_starts_index(lit, t, i);
                            assert(t[i] == s[i]);
                        }
                    }
                }
            }
            if s.len() == 0 {
                assert(lit.take(0) =~= s);
                if lit.len() == 0 {
                    assert(s.take(0) =~= lit);
                }
            }
        }
    }
}

/// A field-content block: one visible or eight-bit byte, and with it one or
/// more blanks and one more such byte where these follow.
pub open spec fn field_content_scan(s: Seq<u8>) -> Scan {
    let first = one_of(s, ByteClass::FieldVchar);
    if first is Match {
        let gap = run(s.skip(1), ByteClass::Blank);
        if gap > 0 && 1 + gap < s.len() && ByteClass::FieldVchar.has(s[(1 + gap) as int]) {
            Scan::Match { len: 2 + gap }
        } else {
            Scan::Match { len: 1 }
        }
    } else {
        first
    }
}

/// What one element inside a quoted string takes at the head of `s`: two bytes
/// for a backslash with an ASCII byte after it, one for other quoted text,
/// none where neither stands.
pub open spec fn quoted_element(s: Seq<u8>) -> nat {
    if s.len() >= 2 && s[0] == BACKSLASH && s[1] < 0x80 {
        2
    } else if s.len() >= 1 && ByteClass::Qdtext.has(s[0]) {
        1
    } else {
        0
    }
}

/// The length of the longest chain of quoted elements at the head of `s`.
pub open spec fn quoted_body(s: Seq<u8>) -> nat
    decreases s.len(),
{
    let n = quoted_element(s);
    if n > 0 {
        n + quoted_body(s.skip(n as int))
    } else {
        0
    }
}

/// A quoted string: a double quote, quoted elements, a double quote. A
/// backslash before an ASCII byte always escapes that byte, so an escaped
/// quote does not close the string.
pub open spec fn quoted_string_scan(s: Seq<u8>) -> Scan {
    let open = literal_scan(s, seq![DQUOTE]);
    if open is Match {
        let body = quoted_body(s.skip(1));
        shift(1 + body, literal_scan(s.skip((1 + body) as int), seq![DQUOTE]))
    } else {
        open
    }
}

pub proof fn lemma_quoted_body_fits(s: Seq<u8>)
    ensures
        quoted_body(s) <= s.len(),
    decreases s.len(),
{
    let n = quoted_element(s);
    if n > 0 {
        lemma_quoted_body_fits(s.skip(n as int));
    }
}

/// A rule of one or more bytes finds nothing on empty input, nor where a
/// byte outside its class stands first. So a token is never found where a
/// separator stands first: no separator is a token character.
pub proof fn lemma_one_or_more_boundary(s: Seq<u8>, c: ByteClass)
    requires
        s.len() == 0 || !c.has(s[0]),
    ensures
        one_or_more(s, c) == (Scan::Fail { at: 0, short: s.len() == 0 }),
{
}

/// No byte is both a separator and a token character.
pub proof fn lemma_separator_is_no_tchar(b: u8)
    ensures
        !(is_separator(b) && is_tchar(b)),
{
}

/// A token is found neither on empty input nor where a separator stands
/// first.
pub proof fn lemma_token_boundary(s: Seq<u8>)
    requires
        s.len() == 0 || is_separator(s[0]),
    ensures
        one_or_more(s, ByteClass::Tchar) == (Scan::Fail { at: 0, short: s.len() == 0 }),
{
}

/// A rule of zero or more bytes always matches; on empty input it matches
/// the empty span.
pub proof fn lemma_zero_or_more_matches(s: Seq<u8>, c: ByteClass)
    ensures
        zero_or_more(s, c) is Match,
        s.len() == 0 ==> zero_or_more(s, c) == (Scan::Match { len: 0 }),
{
}

fn split_at<'a>(input: &'a [u8], n: usize) -> (r: Matched<'a>)
    requires
        n <= input@.len(),
    ensures
        r matches Ok((rest, found)) && found@ == input@.take(n as int) && rest@ == input@.skip(
            n as int,
        ),
{
    let found = slice_subrange(input, 0, n);
    let rest = slice_subrange(input, n, input.len());
    assert(found@ =~= input@.take(n as int));
    assert(rest@ =~= input@.skip(n as int));
    Ok((rest, found))
}

fn fail_at<'a>(input: &'a [u8], at: usize, code: GrammarCode, incomplete: bool) -> (r: Matched<'a>)
    requires
        at <= input@.len(),
    ensures
        r matches Err(e) && e.input@ == input@.skip(at as int) && e.code == code && e.incomplete
            == incomplete,
{
    let rest = slice_subrange(input, at, input.len());
    assert(rest@ =~= input@.skip(at as int));
    Err(GrammarError { input: rest, code, incomplete })
}

/// Counts the leading bytes of `input` that belong to `class`.
pub fn count_run(input: &[u8], class: ByteClass) -> (n: usize)
    ensures
        n == run(input@, class),
        n <= input@.len(),
{
    let mut i: usize = 0;
    while i < input.len() && class.contains(input[i])
        invariant
            i <= input@.len(),
            forall|j: int| 0 <= j < i ==> class.has(#[trigger] input@[j]),
        decreases input@.len() - i,
    {
        i += 1;
    }
    proof {
        lemma_run_is(input@, class, i as nat);
    }
    i
}

/// Matches one byte of `class`.
pub fn take_one<'a>(input: &'a [u8], class: ByteClass, code: GrammarCode) -> (r: Matched<'a>)
    ensures
        scanned(input@, r, one_of(input@, class), code),
{
    if input.len() == 0 {
        fail_at(input, 0, code, true)
    } else if class.contains(input[0]) {
        split_at(input, 1)
    } else {
        fail_at(input, 0, code, false)
    }
}

/// Matches as many bytes of `class` as stand at the head of `input`, at least one.
pub fn take_some<'a>(input: &'a [u8], class: ByteClass, code: GrammarCode) -> (r: Matched<'a>)
    ensures
        scanned(input@, r, one_or_more(input@, class), code),
{
    let n = count_run(input, class);
    if n > 0 {
        split_at(input, n)
    } else {
        fail_at(input, 0, code, input.len() == 0)
    }
}

/// Matches as many bytes of `class` as stand at the head of `input`, possibly none.
pub fn take_any<'a>(input: &'a [u8], class: ByteClass) -> (r: Matched<'a>)
    ensures
        taken(input@, r, run(input@, class)),
{
    let n = count_run(input, class);
    split_at(input, n)
}

/// Whether `input` begins with `lit`.
pub fn begins_with(input: &[u8], lit: &[u8]) -> (r: bool)
    ensures
        r == starts(input@, lit@),
{
    if lit.len() > input.len() {
        return false;
    }
    let mut i: usize = 0;
    while i < lit.len()
        invariant
            i <= lit@.len(),
            lit@.len() <= input@.len(),
            forall|j: int| 0 <= j < i ==> input@[j] == lit@[j],
        decreases lit@.len() - i,
    {
        if input[i] != lit[i] {
            proof {
                assert(input@.take(lit@.len() as int)[i as int] == input@[i as int]);
            }
            return false;
        }
        i += 1;
    }
    assert(input@.take(lit@.len() as int) =~= lit@);
    true
}

/// Matches the fixed byte string `lit`.
pub fn literal<'a>(input: &'a [u8], lit: &[u8]) -> (r: Matched<'a>)
    ensures
        scanned(input@, r, literal_scan(input@, lit@), GrammarCode::Literal),
{
    if begins_with(input, lit) {
        split_at(input, lit.len())
    } else {
        let short = input.len() < lit.len() && begins_with(lit, input);
        fail_at(input, 0, GrammarCode::Literal, short)
    }
}

pub fn digit<'a>(input: &'a [u8]) -> (r: Matched<'a>)
    ensures
        scanned(input@, r, one_of(input@, ByteClass::Digit), GrammarCode::Digit),
{
    take_one(input, ByteClass::Digit, GrammarCode::Digit)
}

pub fn hex_digit<'a>(input: &'a [u8]) -> (r: Matched<'a>)
    ensures
        scanned(input@, r, one_of(input@, ByteClass::HexDigit), GrammarCode::HexDigit),
{
    take_one(input, ByteClass::HexDigit, GrammarCode::HexDigit)
}

pub fn tchar<'a>(input: &'a [u8]) -> (r: Matched<'a>)
    ensures
        scanned(input@, r, one_of(input@, ByteClass::Tchar), GrammarCode::Tchar),
{
    take_one(input, ByteClass::Tchar, GrammarCode::Tchar)
}

pub fn htab<'a>(input: &'a [u8]) -> (r: Matched<'a>)
    ensures
        scanned(input@, r, literal_scan(input@, seq![HTAB]), GrammarCode::Htab),
{
    if input.len() == 0 {
        assert(starts(seq![HTAB], input@)) by {
            assert(seq![HTAB].take(0) =~= input@);
        }
        fail_at(input, 0, GrammarCode::Htab, true)
    } else if input[0] == HTAB {
        assert(input@.take(1) =~= seq![HTAB]);
        split_at(input, 1)
    } else {
        assert(input@.take(1)[0] == input@[0]);
        fail_at(input, 0, GrammarCode::Htab, false)
    }
}

pub fn separator<'a>(input: &'a [u8]) -> (r: Matched<'a>)
    ensures
        scanned(input@, r, one_of(input@, ByteClass::Separator), GrammarCode::Separator),
{
    take_one(input, ByteClass::Separator, GrammarCode::Separator)
}

pub fn vchar<'a>(input: &'a [u8]) -> (r: Matched<'a>)
    ensures
        scanned(input@, r, one_of(input@, ByteClass::Vchar), GrammarCode::Vchar),
{
    take_one(input, ByteClass::Vchar, GrammarCode::Vchar)
}

pub fn obs_text<'a>(input: &'a [u8]) -> (r: Matched<'a>)
    ensures
        scanned(input@, r, one_of(input@, ByteClass::ObsText), GrammarCode::ObsText),
{
    take_one(input, ByteClass::ObsText, GrammarCode::ObsText)
}

pub fn field_vchar<'a>(input: &'a [u8]) -> (r: Matched<'a>)
    ensures
        scanned(input@, r, one_of(input@, ByteClass::FieldVchar), GrammarCode::FieldVchar),
{
    take_one(input, ByteClass::FieldVchar, GrammarCode::FieldVchar)
}

pub fn token<'a>(input: &'a [u8]) -> (r: Matched<'a>)
    ensures
        scanned(input@, r, one_or_more(input@, ByteClass::Tchar), GrammarCode::Token),
{
    take_some(input, ByteClass::Tchar, GrammarCode::Token)
}

pub fn field_content<'a>(input: &'a [u8]) -> (r: Matched<'a>)
    ensures
        scanned(input@, r, field_content_scan(input@), GrammarCode::FieldContent),
{
    match take_one(input, ByteClass::FieldVchar, GrammarCode::FieldContent) {
        Err(e) => Err(e),
        Ok((rest, _)) => {
            let gap = count_run(rest, ByteClass::Blank);
            assert(rest@.len() + 1 == input.len());
            if gap > 0 && gap < rest.len() && ByteClass::FieldVchar.contains(rest[gap]) {
                assert(rest@[gap as int] == input@[1 + gap]);
                split_at(input, 2 + gap)
            } else {
                proof {
                    if gap < rest.len() {
                        assert(rest@[gap as int] == input@[1 + gap]);
                    }
                }
                split_at(input, 1)
            }
        },
    }
}

/// Counts the bytes that the chain of quoted elements at the head of `input` takes.
fn count_quoted_body(input: &[u8]) -> (n: usize)
    ensures
        n == quoted_body(input@),
        n <= input@.len(),
{
    let mut i: usize = 0;
    assert(input@.skip(0) =~= input@);
    loop
        invariant
            i <= input@.len(),
            quoted_body(input@) == i + quoted_body(input@.skip(i as int)),
        ensures
            i <= input@.len(),
            quoted_body(input@) == i,
        decreases input@.len() - i,
    {
        let ghost tail = input@.skip(i as int);
        let left: usize = input.len() - i;
        let step: usize = if left >= 2 && input[i] == BACKSLASH && input[i + 1] < 0x80 {
            2
        } else if left >= 1 && ByteClass::Qdtext.contains(input[i]) {
            1
        } else {
            0
        };
        proof {
            if left >= 1 {
                assert(tail[0] == input@[i as int]);
            }
            if left >= 2 {
                assert(tail[1] == input@[i + 1]);
            }
            assert(step == quoted_element(tail));
            assert(tail.skip(step as int) =~= input@.skip(i + step));
        }
        if step == 0 {
            break ;
        }
        i += step;
    }
    i
}

pub fn quoted_string<'a>(input: &'a [u8]) -> (r: Matched<'a>)
    ensures
        scanned(input@, r, quoted_string_scan(input@), GrammarCode::QuotedString),
{
    let quote: [u8; 1] = [DQUOTE];
    assert(quote@ =~= seq![DQUOTE]);
    match literal(input, quote.as_slice()) {
        Err(e) => Err(GrammarError {
            input: e.input,
            code: GrammarCode::QuotedString,
            incomplete: e.incomplete,
        }),
        Ok((rest, _)) => {
            let body = count_quoted_body(rest);
            assert(rest@.len() + 1 == input.len());
            let tail = slice_subrange(rest, body, rest.len());
            assert(tail@ =~= input@.skip(1 + body));
            if tail.len() > 0 && tail[0] == DQUOTE {
                assert(tail@.take(1) =~= seq![DQUOTE]);
                split_at(input, 2 + body)
            } else {
                proof {
                    if tail.len() > 0 {
                        assert(tail@.take(1)[0] == tail@[0]);
                    } else {
                        assert(seq![DQUOTE].take(0) =~= tail@);
                    }
                }
                fail_at(input, 1 + body, GrammarCode::QuotedString, tail.len() == 0)
            }
        },
    }
}

} // verus!
