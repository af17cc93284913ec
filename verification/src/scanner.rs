//! The tokenizer: one forward pass over the source text that turns it into an
//! ordered sequence of tokens and lexical errors.
//!
//! The whole scan is specified by the recursive function [`scan_at`], a pure
//! function of the source text; [`Scanner::scan_tokens`] is proved to return
//! exactly that sequence.

use vstd::prelude::*;
use vstd::string::StrSliceExecFns;
use vstd::string::StringExecFns;

use crate::token::LiteralValue;
use crate::token::SpecLiteral;
use crate::token::SpecToken;
use crate::token::Token;
use crate::token::TokenType;
use crate::token::keyword_type;
use crate::token::keyword_type_of;

verus! {

/// A terminal record of one malformed lexeme or unterminated construct.
/// `line` is the 1-based line of the error site, `column` the character offset
/// within that line just past the offending construct.
#[derive(Clone, PartialEq, Debug)]
pub struct ScannerError {
    pub line: usize,
    pub column: usize,
    pub message: String,
}

/// Mathematical model of a `ScannerError`.
pub struct SpecScanError {
    pub line: nat,
    pub column: nat,
    pub message: Seq<char>,
}

impl View for ScannerError {
    type V = SpecScanError;

    open spec fn view(&self) -> SpecScanError {
        SpecScanError { line: self.line as nat, column: self.column as nat, message: self.message@ }
    }
}

/// One element of the scanner's output: a token or a lexical error.
#[derive(Clone, PartialEq, Debug)]
pub enum ScannerResult {
    Token(Token),
    Error(ScannerError),
}

/// Mathematical model of a `ScannerResult`.
pub enum SpecItem {
    Token(SpecToken),
    Error(SpecScanError),
}

impl View for ScannerResult {
    type V = SpecItem;

    open spec fn view(&self) -> SpecItem {
        match self {
            ScannerResult::Token(t) => SpecItem::Token(t@),
            ScannerResult::Error(e) => SpecItem::Error(e@),
        }
    }
}

/// The models of a sequence of scanner results.
pub open spec fn items_of(v: Seq<ScannerResult>) -> Seq<SpecItem> {
    v.map_values(|r: ScannerResult| r@)
}

// ---------------------------------------------------------------------------
// Character classes
// ---------------------------------------------------------------------------

/// An ASCII decimal digit.
pub open spec fn is_digit_char(c: char) -> bool {
    ('0' as u32) <= (c as u32) && (c as u32) <= ('9' as u32)
}

fn is_digit_c(c: char) -> (r: bool)
    ensures
        r == is_digit_char(c),
{
    ('0' as u32) <= (c as u32) && (c as u32) <= ('9' as u32)
}

/// Whether a character counts as alphabetic for identifiers. Left abstract:
/// the scanner follows the Unicode classification of the standard library.
pub uninterp spec fn alpha(c: char) -> bool;

/// Relies on char::is_alphabetic: the classification depends on the character
/// alone, and on ASCII it holds exactly for the letters.
#[verifier::external_body]
fn char_is_alpha(c: char) -> (r: bool)
    ensures
        r == alpha(c),
        (c as u32) < 128 ==> r == ((('a' as u32) <= (c as u32) && (c as u32) <= ('z' as u32)) || (
        ('A' as u32) <= (c as u32) && (c as u32) <= ('Z' as u32))),
{
    c.is_alphabetic()
}

/// A character that may continue an identifier.
pub open spec fn is_ident_char(c: char) -> bool {
    alpha(c) || is_digit_char(c) || c == '_'
}

fn is_ident_c(c: char) -> (r: bool)
    ensures
        r == is_ident_char(c),
{
    char_is_alpha(c) || is_digit_c(c) || c == '_'
}

/// The kind a single-character punctuation lexeme denotes.
pub open spec fn single_type(c: char) -> Option<TokenType> {
    if c == '(' {
        Some(TokenType::LeftParen)
    } else if c == ')' {
        Some(TokenType::RightParen)
    } else if c == '{' {
        Some(TokenType::LeftBrace)
    } else if c == '}' {
        Some(TokenType::RightBrace)
    } else if c == ',' {
        Some(TokenType::Comma)
    } else if c == '.' {
        Some(TokenType::Dot)
    } else if c == '-' {
        Some(TokenType::Minus)
    } else if c == '+' {
        Some(TokenType::Plus)
    } else if c == ';' {
        Some(TokenType::Semicolon)
    } else if c == '*' {
        Some(TokenType::Star)
    } else {
        None
    }
}

/// The plain and the `=`-fused kind of a one-or-two-character operator.
pub open spec fn two_char_types(c: char) -> Option<(TokenType, TokenType)> {
    if c == '!' {
        Some((TokenType::Bang, TokenType::BangEqual))
    } else if c == '<' {
        Some((TokenType::Less, TokenType::LessEqual))
    } else if c == '>' {
        Some((TokenType::Greater, TokenType::GreaterEqual))
    } else if c == '=' {
        Some((TokenType::Equal, TokenType::EqualEqual))
    } else {
        None
    }
}

// ---------------------------------------------------------------------------
// Cursor helpers of the scan specification
// ---------------------------------------------------------------------------

/// First position at or after `p` that does not hold a digit.
pub open spec fn digits_end(src: Seq<char>, p: int) -> int
    decreases src.len() - p,
{
    if p < src.len() && is_digit_char(src[p]) {
        digits_end(src, p + 1)
    } else {
        p
    }
}

/// First position at or after `p` that does not hold an identifier character.
pub open spec fn ident_end(src: Seq<char>, p: int) -> int
    decreases src.len() - p,
{
    if p < src.len() && is_ident_char(src[p]) {
        ident_end(src, p + 1)
    } else {
        p
    }
}

/// Position of the first `"` at or after `p`, or the end of the input.
pub open spec fn string_close(src: Seq<char>, p: int) -> int
    decreases src.len() - p,
{
    if p < src.len() && src[p] != '"' {
        string_close(src, p + 1)
    } else {
        p
    }
}

/// Position of the first newline at or after `p`, or the end of the input.
pub open spec fn comment_end(src: Seq<char>, p: int) -> int
    decreases src.len() - p,
{
    if p < src.len() && src[p] != '\n' {
        comment_end(src, p + 1)
    } else {
        p
    }
}

/// Number of newline characters in `src[a..b)`.
pub open spec fn newlines(src: Seq<char>, a: int, b: int) -> nat
    decreases b - a,
{
    if a >= b {
        0
    } else {
        (if src[a] == '\n' {
            1nat
        } else {
            0nat
        }) + newlines(src, a + 1, b)
    }
}

/// The start offset of the current line after the cursor has moved over
/// `src[a..b)`, given that the line started at `ls` beforehand.
pub open spec fn line_start_after(src: Seq<char>, ls: int, a: int, b: int) -> int
    decreases b - a,
{
    if a >= b {
        ls
    } else {
        line_start_after(
            src,
            if src[a] == '\n' {
                a + 1
            } else {
                ls
            },
            a + 1,
            b,
        )
    }
}

pub proof fn lemma_digits_end_bounds(src: Seq<char>, p: int)
    requires
        0 <= p <= src.len(),
    ensures
        p <= digits_end(src, p) <= src.len(),
    decreases src.len() - p,
{
    if p < src.len() && is_digit_char(src[p]) {
        lemma_digits_end_bounds(src, p + 1);
    }
}

pub proof fn lemma_ident_end_bounds(src: Seq<char>, p: int)
    requires
        0 <= p <= src.len(),
    ensures
        p <= ident_end(src, p) <= src.len(),
    decreases src.len() - p,
{
    if p < src.len() && is_ident_char(src[p]) {
        lemma_ident_end_bounds(src, p + 1);
    }
}

pub proof fn lemma_string_close_bounds(src: Seq<char>, p: int)
    requires
        0 <= p <= src.len(),
    ensures
        p <= string_close(src, p) <= src.len(),
    decreases src.len() - p,
{
    if p < src.len() && src[p] != '"' {
        lemma_string_close_bounds(src, p + 1);
    }
}

pub proof fn lemma_comment_end_bounds(src: Seq<char>, p: int)
    requires
        0 <= p <= src.len(),
    ensures
        p <= comment_end(src, p) <= src.len(),
    decreases src.len() - p,
{
    if p < src.len() && src[p] != '\n' {
        lemma_comment_end_bounds(src, p + 1);
    }
}

pub proof fn lemma_line_start_after_bounds(src: Seq<char>, ls: int, a: int, b: int)
    requires
        0 <= ls <= a <= b,
    ensures
        0 <= line_start_after(src, ls, a, b) <= b,
    decreases b - a,
{
    if a < b {
        if src[a] == '\n' {
            lemma_line_start_after_bounds(src, a + 1, a + 1, b);
        } else {
            lemma_line_start_after_bounds(src, ls, a + 1, b);
        }
    }
}

/// Counting one more character on the right.
pub proof fn lemma_newlines_snoc(src: Seq<char>, a: int, b: int)
    requires
        a <= b,
    ensures
        newlines(src, a, b + 1) == newlines(src, a, b) + (if src[b] == '\n' {
            1nat
        } else {
            0nat
        }),
    decreases b - a,
{
    if a < b {
        lemma_newlines_snoc(src, a + 1, b);
    } else {
        assert(newlines(src, a + 1, b + 1) == 0);
        assert(newlines(src, a, b) == 0);
    }
}

/// Scanning one more character on the right.
pub proof fn lemma_line_start_after_snoc(src: Seq<char>, ls: int, a: int, b: int)
    requires
        a <= b,
    ensures
        line_start_after(src, ls, a, b + 1) == (if src[b] == '\n' {
            b + 1
        } else {
            line_start_after(src, ls, a, b)
        }),
    decreases b - a,
{
    if a < b {
        if src[a] == '\n' {
            lemma_line_start_after_snoc(src, a + 1, a + 1, b);
        } else {
            lemma_line_start_after_snoc(src, ls, a + 1, b);
        }
    } else {
        if src[b] == '\n' {
            assert(line_start_after(src, b + 1, a + 1, b + 1) == b + 1);
        } else {
            assert(line_start_after(src, ls, a + 1, b + 1) == ls);
            assert(line_start_after(src, ls, a, b) == ls);
        }
    }
}

// ---------------------------------------------------------------------------
// Canonical number text
// ---------------------------------------------------------------------------

/// Position of the first `.` in `s` at or after `p`, or the end.
pub open spec fn dot_index(s: Seq<char>, p: int) -> int
    decreases s.len() - p,
{
    if p < s.len() && s[p] != '.' {
        dot_index(s, p + 1)
    } else {
        p
    }
}

/// Drops leading `0` characters, keeping at least one character.
pub open spec fn strip_leading_zeros(s: Seq<char>) -> Seq<char>
    decreases s.len(),
{
    if s.len() > 1 && s[0] == '0' {
        strip_leading_zeros(s.drop_first())
    } else {
        s
    }
}

/// Drops trailing `0` characters.
pub open spec fn strip_trailing_zeros(s: Seq<char>) -> Seq<char>
    decreases s.len(),
{
    if s.len() > 0 && s[s.len() - 1] == '0' {
        strip_trailing_zeros(s.drop_last())
    } else {
        s
    }
}

/// The canonical decimal text of a scanned number lexeme: leading zeros of the
/// integer part dropped, trailing zeros of the fraction dropped, and the point
/// dropped when the fraction empties.
pub open spec fn canon_number(s: Seq<char>) -> Seq<char> {
    let d = dot_index(s, 0);
    let ipart = strip_leading_zeros(s.subrange(0, d));
    if d >= s.len() {
        ipart
    } else {
        let f = strip_trailing_zeros(s.subrange(d + 1, s.len() as int));
        if f.len() == 0 {
            ipart
        } else {
            ipart + seq!['.'] + f
        }
    }
}

proof fn lemma_strip_leading(s: Seq<char>, z: int)
    requires
        0 <= z < s.len(),
        forall|i: int| 0 <= i < z ==> s[i] == '0',
        z == s.len() - 1 || s[z] != '0',
    ensures
        strip_leading_zeros(s) == s.subrange(z, s.len() as int),
    decreases z,
{
    if z == 0 {
        assert(s.subrange(0, s.len() as int) =~= s);
    } else {
        lemma_strip_leading(s.drop_first(), z - 1);
        assert(s.drop_first().subrange(z - 1, s.drop_first().len() as int) =~= s.subrange(
            z,
            s.len() as int,
        ));
    }
}

proof fn lemma_strip_trailing(s: Seq<char>, e: int)
    requires
        0 <= e <= s.len(),
        forall|i: int| e <= i < s.len() ==> s[i] == '0',
        e == 0 || s[e - 1] != '0',
    ensures
        strip_trailing_zeros(s) == s.subrange(0, e),
    decreases s.len(),
{
    if e == s.len() {
        if s.len() > 0 && s[s.len() - 1] == '0' {
            assert(s[e - 1] == '0');
        }
        assert(s.subrange(0, s.len() as int) =~= s);
    } else {
        lemma_strip_trailing(s.drop_last(), e);
        assert(s.drop_last().subrange(0, e) =~= s.subrange(0, e));
    }
}

/// Renders a number lexeme (digits, optionally a point and more digits) in its
/// canonical decimal form.
fn canon_number_of(s: &str) -> (r: String)
    requires
        s@.len() > 0,
        s@[0] != '.',
    ensures
        r@ == canon_number(s@),
{
    let n = s.unicode_len();
    let mut d: usize = 0;
    while d < n && s.get_char(d) != '.'
        invariant
            n == s@.len(),
            0 <= d <= n,
            dot_index(s@, 0) == dot_index(s@, d as int),
        decreases n - d,
    {
        d += 1;
    }
    assert(dot_index(s@, 0) == d as int);
    assert(d >= 1);
    let mut z: usize = 0;
    while z + 1 < d && s.get_char(z) == '0'
        invariant
            n == s@.len(),
            d <= n,
            1 <= d,
            0 <= z < d,
            forall|i: int| 0 <= i < z ==> s@[i] == '0',
        decreases d - z,
    {
        z += 1;
    }
    proof {
        let ip = s@.subrange(0, d as int);
        lemma_strip_leading(ip, z as int);
        assert(ip.subrange(z as int, ip.len() as int) =~= s@.subrange(z as int, d as int));
    }
    let ipart = s.substring_char(z, d);
    if d == n {
        return String::from_str(ipart);
    }
    let mut e = n;
    while e > d + 1 && s.get_char(e - 1) == '0'
        invariant
            n == s@.len(),
            d < n,
            d + 1 <= e <= n,
            forall|i: int| e <= i < n ==> s@[i] == '0',
        decreases e,
    {
        e -= 1;
    }
    proof {
        let f = s@.subrange(d + 1, n as int);
        lemma_strip_trailing(f, e - d - 1);
        assert(f.subrange(0, e - d - 1) =~= s@.subrange(d + 1, e as int));
    }
    if e == d + 1 {
        return String::from_str(ipart);
    }
    let mut r = String::from_str(ipart);
    r.append(".");
    r.append(s.substring_char(d + 1, e));
    proof {
        reveal_strlit(".");
        assert("."@ =~= seq!['.']);
        assert(r@ =~= canon_number(s@));
    }
    r
}

// ---------------------------------------------------------------------------
// The scan, as a function of the source text
// ---------------------------------------------------------------------------

/// The error message for an unterminated string literal.
pub open spec fn unterminated_message() -> Seq<char> {
    "Unterminated string"@
}

/// The error message for a character no lexeme can start with.
pub open spec fn unexpected_message(c: char) -> Seq<char> {
    "Unexpected character '"@.push(c).push('\'')
}

/// A token item of the scan.
pub open spec fn spec_tok(
    token_type: TokenType,
    lexeme: Seq<char>,
    line: nat,
    value: Option<SpecLiteral>,
) -> SpecItem {
    SpecItem::Token(SpecToken { token_type, lexeme, line, value })
}

/// End position of a number lexeme whose first digit stands at `pos`: all
/// following digits, and one `.` only when at least one digit follows it.
pub open spec fn number_end(src: Seq<char>, pos: int) -> int {
    let ie = digits_end(src, pos + 1);
    if ie < src.len() && src[ie] == '.' && ie + 1 < src.len() && is_digit_char(src[ie + 1]) {
        digits_end(src, ie + 2)
    } else {
        ie
    }
}

/// The items the scan produces from position `pos` on, on line `line` (1-based)
/// which starts at offset `ls`. The scan ends with exactly one end-of-input
/// token; a lexical error never stops it.
pub open spec fn scan_at(src: Seq<char>, pos: int, line: nat, ls: int) -> Seq<SpecItem>
    decreases src.len() - pos,
    via scan_at_dec
{
    if pos < 0 || pos >= src.len() {
        seq![spec_tok(TokenType::Eof, Seq::empty(), line, None)]
    } else {
        let c = src[pos];
        match single_type(c) {
            Some(tt) => seq![spec_tok(tt, src.subrange(pos, pos + 1), line, None)] + scan_at(
                src,
                pos + 1,
                line,
                ls,
            ),
            None => match two_char_types(c) {
                Some(pair) => if pos + 1 < src.len() && src[pos + 1] == '=' {
                    seq![spec_tok(pair.1, src.subrange(pos, pos + 2), line, None)] + scan_at(
                        src,
                        pos + 2,
                        line,
                        ls,
                    )
                } else {
                    seq![spec_tok(pair.0, src.subrange(pos, pos + 1), line, None)] + scan_at(
                        src,
                        pos + 1,
                        line,
                        ls,
                    )
                },
                None => if c == '/' {
                    if pos + 1 < src.len() && src[pos + 1] == '/' {
                        scan_at(src, comment_end(src, pos + 2), line, ls)
                    } else {
                        seq![spec_tok(TokenType::Slash, src.subrange(pos, pos + 1), line, None)]
                            + scan_at(src, pos + 1, line, ls)
                    }
                } else if c == ' ' || c == '\r' || c == '\t' {
                    scan_at(src, pos + 1, line, ls)
                } else if c == '\n' {
                    scan_at(src, pos + 1, line + 1, pos + 1)
                } else if c == '"' {
                    let close = string_close(src, pos + 1);
                    let line2 = line + newlines(src, pos + 1, close);
                    let ls2 = line_start_after(src, ls, pos + 1, close);
                    if close >= src.len() {
                        seq![
                            SpecItem::Error(
                                SpecScanError {
                                    line: line2,
                                    column: (src.len() - ls2) as nat,
                                    message: unterminated_message(),
                                },
                            ),
                        ] + scan_at(src, src.len() as int, line2, ls2)
                    } else {
                        seq![
                            spec_tok(
                                TokenType::Str,
                                src.subrange(pos, close + 1),
                                line,
                                Some(SpecLiteral::Text(src.subrange(pos + 1, close))),
                            ),
                        ] + scan_at(src, close + 1, line2, ls2)
                    }
                } else if is_digit_char(c) {
                    let end = number_end(src, pos);
                    seq![
                        spec_tok(
                            TokenType::Number,
                            src.subrange(pos, end),
                            line,
                            Some(SpecLiteral::Number(canon_number(src.subrange(pos, end)))),
                        ),
                    ] + scan_at(src, end, line, ls)
                } else if alpha(c) {
                    let end = ident_end(src, pos + 1);
                    let text = src.subrange(pos, end);
                    match keyword_type(text) {
                        Some(tt) => seq![spec_tok(tt, text, line, None)] + scan_at(
                            src,
                            end,
                            line,
                            ls,
                        ),
                        None => seq![
                            spec_tok(
                                TokenType::Identifier,
                                text,
                                line,
                                Some(SpecLiteral::Text(text)),
                            ),
                        ] + scan_at(src, end, line, ls),
                    }
                } else {
                    seq![
                        SpecItem::Error(
                            SpecScanError {
                                line,
                                column: (pos + 1 - ls) as nat,
                                message: unexpected_message(c),
                            },
                        ),
                    ] + scan_at(src, pos + 1, line, ls)
                },
            },
        }
    }
}

#[via_fn]
proof fn scan_at_dec(src: Seq<char>, pos: int, line: nat, ls: int) {
    if 0 <= pos && pos < src.len() {
        lemma_digits_end_bounds(src, pos + 1);
        lemma_ident_end_bounds(src, pos + 1);
        lemma_string_close_bounds(src, pos + 1);
        if pos + 2 <= src.len() {
            lemma_comment_end_bounds(src, pos + 2);
        }
        let ie = digits_end(src, pos + 1);
        if ie + 2 <= src.len() {
            lemma_digits_end_bounds(src, ie + 2);
        }
    }
}

/// The model of an optional literal payload.
pub open spec fn opt_lit_view(v: Option<LiteralValue>) -> Option<SpecLiteral> {
    match v {
        Option::None => Option::None,
        Option::Some(l) => Option::Some(l@),
    }
}

/// Relies on String::push: appends exactly the one character to the end.
#[verifier::external_body]
fn push_char(s: &mut String, c: char)
    ensures
        final(s)@ == old(s)@.push(c),
{
    s.push(c);
}

proof fn lemma_step_glue(
    pre_items: Seq<SpecItem>,
    post_items: Seq<SpecItem>,
    item: SpecItem,
    pre_rest: Seq<SpecItem>,
    post_rest: Seq<SpecItem>,
)
    requires
        post_items == pre_items.push(item),
        pre_rest == seq![item] + post_rest,
    ensures
        post_items + post_rest == pre_items + pre_rest,
{
    assert(post_items + post_rest =~= pre_items + pre_rest);
}

// ---------------------------------------------------------------------------
// The scanner
// ---------------------------------------------------------------------------

/// A single forward cursor over the source text, collecting tokens and
/// lexical errors in source order.
pub struct Scanner {
    source: String,
    n: usize,
    start: usize,
    current: usize,
    line: usize,
    line_start: usize,
    tokens: Vec<ScannerResult>,
}

impl Scanner {
    /// The source text being scanned.
    pub closed spec fn src(&self) -> Seq<char> {
        self.source@
    }

    pub closed spec fn wf(&self) -> bool {
        &&& self.n == self.source@.len()
        &&& self.n < usize::MAX
        &&& self.start <= self.current
        &&& self.current <= self.n
        &&& self.line_start <= self.current
        &&& 1 <= self.line
        &&& self.line <= self.current + 1
    }

    /// A scanner that has not consumed anything yet.
    pub closed spec fn fresh(&self) -> bool {
        &&& self.wf()
        &&& self.current == 0
        &&& self.start == 0
        &&& self.line == 1
        &&& self.line_start == 0
        &&& self.tokens@.len() == 0
    }

    closed spec fn items(&self) -> Seq<SpecItem> {
        items_of(self.tokens@)
    }

    closed spec fn rest(&self) -> Seq<SpecItem> {
        scan_at(self.source@, self.current as int, self.line as nat, self.line_start as int)
    }

    pub fn new(source: String) -> (s: Scanner)
        requires
            source@.len() < usize::MAX,
        ensures
            s.fresh(),
            s.src() == source@,
    {
        let n = source.as_str().unicode_len();
        Scanner { source, n, start: 0, current: 0, line: 1, line_start: 0, tokens: Vec::new() }
    }

    fn is_at_end(&self) -> (r: bool)
        ensures
            r == (self.current >= self.n),
    {
        self.current >= self.n
    }

    fn peek(&self) -> (c: char)
        requires
            self.wf(),
        ensures
            c == (if (self.current as int) < self.src().len() {
                self.src()[self.current as int]
            } else {
                '\0'
            }),
    {
        if self.current >= self.n {
            '\0'
        } else {
            self.source.as_str().get_char(self.current)
        }
    }

    fn peek_next(&self) -> (c: char)
        requires
            self.wf(),
        ensures
            c == (if (self.current as int) + 1 < self.src().len() {
                self.src()[self.current as int + 1]
            } else {
                '\0'
            }),
    {
        if self.current + 1 >= self.n {
            '\0'
        } else {
            self.source.as_str().get_char(self.current + 1)
        }
    }

    fn advance(&mut self) -> (c: char)
        requires
            old(self).wf(),
            old(self).current < old(self).n,
        ensures
            final(self).wf(),
            c == old(self).src()[old(self).current as int],
            final(self).current == old(self).current + 1,
            final(self).source == old(self).source,
            final(self).n == old(self).n,
            final(self).start == old(self).start,
            final(self).line == old(self).line,
            final(self).line_start == old(self).line_start,
            final(self).tokens == old(self).tokens,
    {
        let c = self.source.as_str().get_char(self.current);
        self.current = self.current + 1;
        c
    }

    fn match_next(&mut self, c: char) -> (r: bool)
        requires
            old(self).wf(),
        ensures
            final(self).wf(),
            final(self).source == old(self).source,
            final(self).n == old(self).n,
            final(self).start == old(self).start,
            final(self).line == old(self).line,
            final(self).line_start == old(self).line_start,
            final(self).tokens == old(self).tokens,
            r == ((old(self).current as int) < old(self).src().len() && old(self).src()[old(
                self,
            ).current as int] == c),
            final(self).current as int == (if r {
                old(self).current + 1
            } else {
                old(self).current as int
            }),
    {
        if self.current >= self.n {
            return false;
        }
        if self.source.as_str().get_char(self.current) == c {
            self.current = self.current + 1;
            true
        } else {
            false
        }
    }

    fn emit_with_line(&mut self, token_type: TokenType, value: Option<LiteralValue>, line: usize)
        requires
            old(self).wf(),
        ensures
            final(self).wf(),
            final(self).source == old(self).source,
            final(self).n == old(self).n,
            final(self).start == old(self).start,
            final(self).current == old(self).current,
            final(self).line == old(self).line,
            final(self).line_start == old(self).line_start,
            final(self).items() == old(self).items().push(
                spec_tok(
                    token_type,
                    old(self).src().subrange(old(self).start as int, old(self).current as int),
                    line as nat,
                    opt_lit_view(value),
                ),
            ),
    {
        let lexeme = String::from_str(self.source.as_str().substring_char(self.start, self.current));
        let tok = Token { token_type, lexeme, line, value };
        self.tokens.push(ScannerResult::Token(tok));
        proof {
            assert(self.items() =~= old(self).items().push(
                spec_tok(
                    token_type,
                    old(self).src().subrange(old(self).start as int, old(self).current as int),
                    line as nat,
                    opt_lit_view(value),
                ),
            ));
        }
    }

    fn emit(&mut self, token_type: TokenType, value: Option<LiteralValue>)
        requires
            old(self).wf(),
        ensures
            final(self).wf(),
            final(self).source == old(self).source,
            final(self).n == old(self).n,
            final(self).start == old(self).start,
            final(self).current == old(self).current,
            final(self).line == old(self).line,
            final(self).line_start == old(self).line_start,
            final(self).items() == old(self).items().push(
                spec_tok(
                    token_type,
                    old(self).src().subrange(old(self).start as int, old(self).current as int),
                    old(self).line as nat,
                    opt_lit_view(value),
                ),
            ),
    {
        let line = self.line;
        self.emit_with_line(token_type, value, line);
    }

    fn emit_error(&mut self, message: String)
        requires
            old(self).wf(),
        ensures
            final(self).wf(),
            final(self).source == old(self).source,
            final(self).n == old(self).n,
            final(self).start == old(self).start,
            final(self).current == old(self).current,
            final(self).line == old(self).line,
            final(self).line_start == old(self).line_start,
            final(self).items() == old(self).items().push(
                SpecItem::Error(
                    SpecScanError {
                        line: old(self).line as nat,
                        column: (old(self).current - old(self).line_start) as nat,
                        message: message@,
                    },
                ),
            ),
    {
        let err = ScannerError {
            line: self.line,
            column: self.current - self.line_start,
            message,
        };
        let ghost e = err@;
        self.tokens.push(ScannerResult::Error(err));
        proof {
            assert(self.items() =~= old(self).items().push(SpecItem::Error(e)));
        }
    }
}


impl Scanner {
    proof fn lemma_item_glue(pre: Scanner, post: Scanner, item: SpecItem)
        requires
            pre.rest() == seq![item] + post.rest(),
            post.items() == pre.items().push(item),
        ensures
            post.items() + post.rest() == pre.items() + pre.rest(),
    {
        assert(post.items() + post.rest() =~= pre.items() + pre.rest());
    }

    fn scan_slash(&mut self)
        requires
            old(self).wf(),
            old(self).current == old(self).start + 1,
            old(self).start < old(self).n,
            old(self).src()[old(self).start as int] == '/',
        ensures
            final(self).wf(),
            final(self).source == old(self).source,
            final(self).n == old(self).n,
            final(self).start == old(self).start,
            final(self).line == old(self).line,
            final(self).line_start == old(self).line_start,
            final(self).current > old(self).start,
            ({
                let src = old(self).src();
                let p = old(self).start as int;
                if p + 1 < src.len() && src[p + 1] == '/' {
                    final(self).current as int == comment_end(src, p + 2) && final(self).tokens
                        == old(self).tokens
                } else {
                    final(self).current == old(self).current && final(self).items() == old(
                        self,
                    ).items().push(
                        spec_tok(
                            TokenType::Slash,
                            src.subrange(p, p + 1),
                            old(self).line as nat,
                            None,
                        ),
                    )
                }
            }),
    {
        if self.match_next('/') {
            while !self.is_at_end() && self.peek() != '\n'
                invariant
                    self.wf(),
                    self.source == old(self).source,
                    self.n == old(self).n,
                    self.start == old(self).start,
                    self.line == old(self).line,
                    self.line_start == old(self).line_start,
                    self.tokens == old(self).tokens,
                    old(self).start + 2 <= self.current <= self.n,
                    comment_end(old(self).src(), old(self).start as int + 2) == comment_end(
                        old(self).src(),
                        self.current as int,
                    ),
                decreases self.n - self.current,
            {
                self.advance();
            }
        } else {
            self.emit(TokenType::Slash, None);
        }
    }

    fn scan_number(&mut self)
        requires
            old(self).wf(),
            old(self).current == old(self).start + 1,
            old(self).start < old(self).n,
            is_digit_char(old(self).src()[old(self).start as int]),
        ensures
            final(self).wf(),
            final(self).source == old(self).source,
            final(self).n == old(self).n,
            final(self).start == old(self).start,
            final(self).line == old(self).line,
            final(self).line_start == old(self).line_start,
            final(self).current as int == number_end(old(self).src(), old(self).start as int),
            final(self).current > old(self).start,
            ({
                let src = old(self).src();
                let p = old(self).start as int;
                let end = number_end(src, p);
                final(self).items() == old(self).items().push(
                    spec_tok(
                        TokenType::Number,
                        src.subrange(p, end),
                        old(self).line as nat,
                        Some(SpecLiteral::Number(canon_number(src.subrange(p, end)))),
                    ),
                )
            }),
    {
        proof {
            lemma_digits_end_bounds(old(self).src(), old(self).current as int);
        }
        while is_digit_c(self.peek())
            invariant
                self.wf(),
                self.source == old(self).source,
                self.n == old(self).n,
                self.start == old(self).start,
                self.line == old(self).line,
                self.line_start == old(self).line_start,
                self.tokens == old(self).tokens,
                old(self).current <= self.current <= self.n,
                digits_end(old(self).src(), old(self).current as int) == digits_end(
                    old(self).src(),
                    self.current as int,
                ),
            decreases self.n - self.current,
        {
            self.advance();
        }
        let ghost ie = self.current as int;
        assert(ie == digits_end(old(self).src(), old(self).current as int));
        if self.peek() == '.' && is_digit_c(self.peek_next()) {
            self.advance();
            proof {
                lemma_digits_end_bounds(old(self).src(), ie + 1);
            }
            while is_digit_c(self.peek())
                invariant
                    self.wf(),
                    self.source == old(self).source,
                    self.n == old(self).n,
                    self.start == old(self).start,
                    self.line == old(self).line,
                    self.line_start == old(self).line_start,
                    self.tokens == old(self).tokens,
                    ie + 1 <= self.current <= self.n,
                    digits_end(old(self).src(), ie + 1) == digits_end(
                        old(self).src(),
                        self.current as int,
                    ),
                decreases self.n - self.current,
            {
                self.advance();
            }
        }
        assert(self.current as int == number_end(old(self).src(), old(self).start as int));
        let lexeme = self.source.as_str().substring_char(self.start, self.current);
        assert(lexeme@[0] == old(self).src()[old(self).start as int]);
        let value = canon_number_of(lexeme);
        self.emit(TokenType::Number, Some(LiteralValue::Number(value)));
    }

    fn scan_string(&mut self)
        requires
            old(self).wf(),
            old(self).current == old(self).start + 1,
            old(self).start < old(self).n,
            old(self).src()[old(self).start as int] == '"',
        ensures
            final(self).wf(),
            final(self).source == old(self).source,
            final(self).n == old(self).n,
            final(self).start == old(self).start,
            final(self).current > old(self).start,
            ({
                let src = old(self).src();
                let p = old(self).start as int;
                let close = string_close(src, p + 1);
                let line2 = old(self).line as nat + newlines(src, p + 1, close);
                let ls2 = line_start_after(src, old(self).line_start as int, p + 1, close);
                if close >= src.len() {
                    final(self).current as int == src.len() && final(self).line as nat == line2
                        && final(self).line_start as int == ls2 && final(self).items() == old(
                        self,
                    ).items().push(
                        SpecItem::Error(
                            SpecScanError {
                                line: line2,
                                column: (src.len() - ls2) as nat,
                                message: unterminated_message(),
                            },
                        ),
                    )
                } else {
                    final(self).current as int == close + 1 && final(self).line as nat == line2
                        && final(self).line_start as int == ls2 && final(self).items() == old(
                        self,
                    ).items().push(
                        spec_tok(
                            TokenType::Str,
                            src.subrange(p, close + 1),
                            old(self).line as nat,
                            Some(SpecLiteral::Text(src.subrange(p + 1, close))),
                        ),
                    )
                }
            }),
    {
        let line0 = self.line;
        proof {
            lemma_string_close_bounds(old(self).src(), old(self).current as int);
            assert(newlines(old(self).src(), old(self).current as int, old(self).current as int)
                == 0);
            assert(line_start_after(
                old(self).src(),
                old(self).line_start as int,
                old(self).current as int,
                old(self).current as int,
            ) == old(self).line_start as int);
        }
        while !self.is_at_end() && self.peek() != '"'
            invariant
                self.wf(),
                self.source == old(self).source,
                self.n == old(self).n,
                self.start == old(self).start,
                self.tokens == old(self).tokens,
                old(self).current <= self.current <= self.n,
                string_close(old(self).src(), old(self).current as int) == string_close(
                    old(self).src(),
                    self.current as int,
                ),
                self.line as nat == old(self).line as nat + newlines(
                    old(self).src(),
                    old(self).current as int,
                    self.current as int,
                ),
                self.line_start as int == line_start_after(
                    old(self).src(),
                    old(self).line_start as int,
                    old(self).current as int,
                    self.current as int,
                ),
            decreases self.n - self.current,
        {
            let c = self.peek();
            self.advance();
            if c == '\n' {
                self.line = self.line + 1;
                self.line_start = self.current;
            }
            proof {
                lemma_newlines_snoc(
                    old(self).src(),
                    old(self).current as int,
                    self.current as int - 1,
                );
                lemma_line_start_after_snoc(
                    old(self).src(),
                    old(self).line_start as int,
                    old(self).current as int,
                    self.current as int - 1,
                );
            }
        }
        if self.is_at_end() {
            self.emit_error(String::from_str("Unterminated string"));
            return ;
        }
        self.advance();
        let value = String::from_str(
            self.source.as_str().substring_char(self.start + 1, self.current - 1),
        );
        self.emit_with_line(TokenType::Str, Some(LiteralValue::Text(value)), line0);
    }

    fn scan_identifier_or_keyword(&mut self)
        requires
            old(self).wf(),
            old(self).current == old(self).start + 1,
            old(self).start < old(self).n,
            alpha(old(self).src()[old(self).start as int]),
        ensures
            final(self).wf(),
            final(self).source == old(self).source,
            final(self).n == old(self).n,
            final(self).start == old(self).start,
            final(self).line == old(self).line,
            final(self).line_start == old(self).line_start,
            final(self).current as int == ident_end(old(self).src(), old(self).start as int + 1),
            final(self).current > old(self).start,
            ({
                let src = old(self).src();
                let p = old(self).start as int;
                let end = ident_end(src, p + 1);
                let text = src.subrange(p, end);
                match keyword_type(text) {
                    Some(tt) => final(self).items() == old(self).items().push(
                        spec_tok(tt, text, old(self).line as nat, None),
                    ),
                    None => final(self).items() == old(self).items().push(
                        spec_tok(
                            TokenType::Identifier,
                            text,
                            old(self).line as nat,
                            Some(SpecLiteral::Text(text)),
                        ),
                    ),
                }
            }),
    {
        proof {
            lemma_ident_end_bounds(old(self).src(), old(self).current as int);
        }
        while !self.is_at_end() && is_ident_c(self.peek())
            invariant
                self.wf(),
                self.source == old(self).source,
                self.n == old(self).n,
                self.start == old(self).start,
                self.line == old(self).line,
                self.line_start == old(self).line_start,
                self.tokens == old(self).tokens,
                old(self).current <= self.current <= self.n,
                ident_end(old(self).src(), old(self).current as int) == ident_end(
                    old(self).src(),
                    self.current as int,
                ),
            decreases self.n - self.current,
        {
            self.advance();
        }
        let text = String::from_str(self.source.as_str().substring_char(self.start, self.current));
        match keyword_type_of(text.as_str()) {
            Some(tt) => self.emit(tt, None),
            None => self.emit(TokenType::Identifier, Some(LiteralValue::Text(text))),
        }
    }
}


impl Scanner {
    fn scan_token(&mut self)
        requires
            old(self).wf(),
            old(self).start == old(self).current,
            old(self).current < old(self).n,
        ensures
            final(self).wf(),
            final(self).source == old(self).source,
            final(self).n == old(self).n,
            final(self).current > old(self).current,
            final(self).items() + final(self).rest() == old(self).items() + old(self).rest(),
    {
        let ghost pre = *self;
        let c = self.advance();
        if c == '(' {
            self.emit(TokenType::LeftParen, None);
            proof {
                let item = spec_tok(
                    TokenType::LeftParen,
                    pre.src().subrange(pre.current as int, pre.current as int + 1),
                    pre.line as nat,
                    None,
                );
                assert(pre.rest() == seq![item] + self.rest());
                Self::lemma_item_glue(pre, *self, item);
            }
        } else if c == ')' {
            self.emit(TokenType::RightParen, None);
            proof {
                let item = spec_tok(
                    TokenType::RightParen,
                    pre.src().subrange(pre.current as int, pre.current as int + 1),
                    pre.line as nat,
                    None,
                );
                assert(pre.rest() == seq![item] + self.rest());
                Self::lemma_item_glue(pre, *self, item);
            }
        } else if c == '{' {
            self.emit(TokenType::LeftBrace, None);
            proof {
                let item = spec_tok(
                    TokenType::LeftBrace,
                    pre.src().subrange(pre.current as int, pre.current as int + 1),
                    pre.line as nat,
                    None,
                );
                assert(pre.rest() == seq![item] + self.rest());
                Self::lemma_item_glue(pre, *self, item);
            }
        } else if c == '}' {
            self.emit(TokenType::RightBrace, None);
            proof {
                let item = spec_tok(
                    TokenType::RightBrace,
                    pre.src().subrange(pre.current as int, pre.current as int + 1),
                    pre.line as nat,
                    None,
                );
                assert(pre.rest() == seq![item] + self.rest());
                Self::lemma_item_glue(pre, *self, item);
            }
        } else if c == ',' {
            self.emit(TokenType::Comma, None);
            proof {
                let item = spec_tok(
                    TokenType::Comma,
                    pre.src().subrange(pre.current as int, pre.current as int + 1),
                    pre.line as nat,
                    None,
                );
                assert(pre.rest() == seq![item] + self.rest());
                Self::lemma_item_glue(pre, *self, item);
            }
        } else if c == '.' {
            self.emit(TokenType::Dot, None);
            proof {
                let item = spec_tok(
                    TokenType::Dot,
                    pre.src().subrange(pre.current as int, pre.current as int + 1),
                    pre.line as nat,
                    None,
                );
                assert(pre.rest() == seq![item] + self.rest());
                Self::lemma_item_glue(pre, *self, item);
            }
        } else if c == '-' {
            self.emit(TokenType::Minus, None);
            proof {
                let item = spec_tok(
                    TokenType::Minus,
                    pre.src().subrange(pre.current as int, pre.current as int + 1),
                    pre.line as nat,
                    None,
                );
                assert(pre.rest() == seq![item] + self.rest());
                Self::lemma_item_glue(pre, *self, item);
            }
        } else if c == '+' {
            self.emit(TokenType::Plus, None);
            proof {
                let item = spec_tok(
                    TokenType::Plus,
                    pre.src().subrange(pre.current as int, pre.current as int + 1),
                    pre.line as nat,
                    None,
                );
                assert(pre.rest() == seq![item] + self.rest());
                Self::lemma_item_glue(pre, *self, item);
            }
        } else if c == ';' {
            self.emit(TokenType::Semicolon, None);
            proof {
                let item = spec_tok(
                    TokenType::Semicolon,
                    pre.src().subrange(pre.current as int, pre.current as int + 1),
                    pre.line as nat,
                    None,
                );
                assert(pre.rest() == seq![item] + self.rest());
                Self::lemma_item_glue(pre, *self, item);
            }
        } else if c == '*' {
            self.emit(TokenType::Star, None);
            proof {
                let item = spec_tok(
                    TokenType::Star,
                    pre.src().subrange(pre.current as int, pre.current as int + 1),
                    pre.line as nat,
                    None,
                );
                assert(pre.rest() == seq![item] + self.rest());
                Self::lemma_item_glue(pre, *self, item);
            }
        } else if c == '!' {
            let tt = if self.match_next('=') {
                TokenType::BangEqual
            } else {
                TokenType::Bang
            };
            self.emit(tt, None);
            proof {
                self.two_char_glue(pre, TokenType::Bang, TokenType::BangEqual);
            }
        } else if c == '<' {
            let tt = if self.match_next('=') {
                TokenType::LessEqual
            } else {
                TokenType::Less
            };
            self.emit(tt, None);
            proof {
                self.two_char_glue(pre, TokenType::Less, TokenType::LessEqual);
            }
        } else if c == '>' {
            let tt = if self.match_next('=') {
                TokenType::GreaterEqual
            } else {
                TokenType::Greater
            };
            self.emit(tt, None);
            proof {
                self.two_char_glue(pre, TokenType::Greater, TokenType::GreaterEqual);
            }
        } else if c == '=' {
            let tt = if self.match_next('=') {
                TokenType::EqualEqual
            } else {
                TokenType::Equal
            };
            self.emit(tt, None);
            proof {
                self.two_char_glue(pre, TokenType::Equal, TokenType::EqualEqual);
            }
        } else if c == '/' {
            self.scan_slash();
            proof {
                if pre.current as int + 1 < pre.src().len() && pre.src()[pre.current as int + 1]
                    == '/' {
                    assert(pre.rest() == self.rest());
                    assert(self.items() + self.rest() =~= pre.items() + pre.rest());
                } else {
                    let item = spec_tok(
                        TokenType::Slash,
                        pre.src().subrange(pre.current as int, pre.current as int + 1),
                        pre.line as nat,
                        None,
                    );
                    assert(pre.rest() == seq![item] + self.rest());
                    Self::lemma_item_glue(pre, *self, item);
                }
            }
        } else if c == '"' {
            self.scan_string();
            proof {
                let close = string_close(pre.src(), pre.current as int + 1);
                let line2 = pre.line as nat + newlines(pre.src(), pre.current as int + 1, close);
                let ls2 = line_start_after(
                    pre.src(),
                    pre.line_start as int,
                    pre.current as int + 1,
                    close,
                );
                if close >= pre.src().len() {
                    let item = SpecItem::Error(
                        SpecScanError {
                            line: line2,
                            column: (pre.src().len() - ls2) as nat,
                            message: unterminated_message(),
                        },
                    );
                    assert(pre.rest() == seq![item] + self.rest());
                    Self::lemma_item_glue(pre, *self, item);
                } else {
                    let item = spec_tok(
                        TokenType::Str,
                        pre.src().subrange(pre.current as int, close + 1),
                        pre.line as nat,
                        Some(SpecLiteral::Text(pre.src().subrange(pre.current as int + 1, close))),
                    );
                    assert(pre.rest() == seq![item] + self.rest());
                    Self::lemma_item_glue(pre, *self, item);
                }
            }
        } else if c == ' ' || c == '\r' || c == '\t' {
            proof {
                assert(pre.rest() == self.rest());
                assert(self.items() + self.rest() =~= pre.items() + pre.rest());
            }
        } else if c == '\n' {
            self.line = self.line + 1;
            self.line_start = self.current;
            proof {
                assert(pre.rest() == self.rest());
                assert(self.items() + self.rest() =~= pre.items() + pre.rest());
            }
        } else if is_digit_c(c) {
            self.scan_number();
            proof {
                let end = number_end(pre.src(), pre.current as int);
                let item = spec_tok(
                    TokenType::Number,
                    pre.src().subrange(pre.current as int, end),
                    pre.line as nat,
                    Some(
                        SpecLiteral::Number(
                            canon_number(pre.src().subrange(pre.current as int, end)),
                        ),
                    ),
                );
                assert(pre.rest() == seq![item] + self.rest());
                Self::lemma_item_glue(pre, *self, item);
            }
        } else if char_is_alpha(c) {
            self.scan_identifier_or_keyword();
            proof {
                let end = ident_end(pre.src(), pre.current as int + 1);
                let text = pre.src().subrange(pre.current as int, end);
                match keyword_type(text) {
                    Some(tt) => {
                        let item = spec_tok(tt, text, pre.line as nat, None);
                        assert(pre.rest() == seq![item] + self.rest());
                        Self::lemma_item_glue(pre, *self, item);
                    },
                    None => {
                        let item = spec_tok(
                            TokenType::Identifier,
                            text,
                            pre.line as nat,
                            Some(SpecLiteral::Text(text)),
                        );
                        assert(pre.rest() == seq![item] + self.rest());
                        Self::lemma_item_glue(pre, *self, item);
                    },
                }
            }
        } else {
            let mut message = String::from_str("Unexpected character '");
            push_char(&mut message, c);
            message.append("'");
            proof {
                reveal_strlit("'");
                assert(message@ =~= unexpected_message(c));
            }
            self.emit_error(message);
            proof {
                let item = SpecItem::Error(
                    SpecScanError {
                        line: pre.line as nat,
                        column: (pre.current + 1 - pre.line_start) as nat,
                        message: unexpected_message(c),
                    },
                );
                assert(pre.rest() == seq![item] + self.rest());
                Self::lemma_item_glue(pre, *self, item);
            }
        }
    }

    /// Glue for the four operators that optionally fuse with `=`.
    proof fn two_char_glue(&self, pre: Scanner, plain: TokenType, compound: TokenType)
        requires
            pre.wf(),
            pre.start == pre.current,
            pre.current < pre.n,
            two_char_types(pre.src()[pre.current as int]) == Some((plain, compound)),
            self.source == pre.source,
            self.n == pre.n,
            self.line == pre.line,
            self.line_start == pre.line_start,
            ({
                let p = pre.current as int;
                if p + 1 < pre.src().len() && pre.src()[p + 1] == '=' {
                    self.current as int == p + 2 && self.items() == pre.items().push(
                        spec_tok(compound, pre.src().subrange(p, p + 2), pre.line as nat, None),
                    )
                } else {
                    self.current as int == p + 1 && self.items() == pre.items().push(
                        spec_tok(plain, pre.src().subrange(p, p + 1), pre.line as nat, None),
                    )
                }
            }),
        ensures
            self.items() + self.rest() == pre.items() + pre.rest(),
    {
        let p = pre.current as int;
        if p + 1 < pre.src().len() && pre.src()[p + 1] == '=' {
            let item = spec_tok(compound, pre.src().subrange(p, p + 2), pre.line as nat, None);
            assert(pre.rest() == seq![item] + self.rest());
            Self::lemma_item_glue(pre, *self, item);
        } else {
            let item = spec_tok(plain, pre.src().subrange(p, p + 1), pre.line as nat, None);
            assert(pre.rest() == seq![item] + self.rest());
            Self::lemma_item_glue(pre, *self, item);
        }
    }

    /// Scans the whole source: every token and lexical error in source order,
    /// closed by exactly one end-of-input token.
    pub fn scan_tokens(&mut self) -> (r: Vec<ScannerResult>)
        requires
            old(self).fresh(),
        ensures
            items_of(r@) == scan_at(old(self).src(), 0, 1, 0),
    {
        while !self.is_at_end()
            invariant
                self.wf(),
                self.source == old(self).source,
                self.n == old(self).n,
                self.items() + self.rest() == scan_at(old(self).src(), 0, 1, 0),
            decreases self.n - self.current,
        {
            self.start = self.current;
            self.scan_token();
        }
        let line = self.line;
        let ghost pre = *self;
        self.tokens.push(
            ScannerResult::Token(
                Token { token_type: TokenType::Eof, lexeme: String::new(), line, value: None },
            ),
        );
        proof {
            let item = spec_tok(TokenType::Eof, Seq::empty(), line as nat, None);
            assert(pre.rest() == seq![item]);
            assert(self.items() =~= pre.items().push(item));
            assert(self.items() =~= pre.items() + pre.rest());
        }
        let mut out: Vec<ScannerResult> = Vec::new();
        core::mem::swap(&mut out, &mut self.tokens);
        out
    }
}


// ---------------------------------------------------------------------------
// Laws of the scan
// ---------------------------------------------------------------------------

/// Scanning is a pure function of the source text: two scans of the same text
/// yield identical item sequences.
pub proof fn lemma_scan_deterministic(a: Seq<SpecItem>, b: Seq<SpecItem>, src: Seq<char>)
    requires
        a == scan_at(src, 0, 1, 0),
        b == scan_at(src, 0, 1, 0),
    ensures
        a == b,
{
}

/// A quote that is never closed leaves the whole tail unclosed.
pub proof fn lemma_string_close_open(src: Seq<char>, p: int)
    requires
        0 <= p <= src.len(),
        forall|j: int| p <= j < src.len() ==> src[j] != '"',
    ensures
        string_close(src, p) == src.len(),
    decreases src.len() - p,
{
    if p < src.len() {
        lemma_string_close_open(src, p + 1);
    }
}

/// An unterminated string literal yields one lexical error and no string
/// token for that span: the scan from the opening quote on is exactly that
/// error followed by the end-of-input token.
pub proof fn lemma_unterminated_string(src: Seq<char>, pos: int, line: nat, ls: int)
    requires
        0 <= pos < src.len(),
        src[pos] == '"',
        forall|j: int| pos < j < src.len() ==> src[j] != '"',
    ensures
        ({
            let r = scan_at(src, pos, line, ls);
            let line2 = line + newlines(src, pos + 1, src.len() as int);
            &&& r.len() == 2
            &&& (r[0] matches SpecItem::Error(e) && e.message == unterminated_message())
            &&& r[1] == spec_tok(TokenType::Eof, Seq::empty(), line2, None)
        }),
{
    lemma_string_close_open(src, pos + 1);
    let close = string_close(src, pos + 1);
    let line2 = line + newlines(src, pos + 1, close);
    let ls2 = line_start_after(src, ls, pos + 1, close);
    assert(scan_at(src, src.len() as int, line2, ls2) == seq![
        spec_tok(TokenType::Eof, Seq::empty(), line2, None),
    ]);
    assert(scan_at(src, pos, line, ls) == seq![
        SpecItem::Error(
            SpecScanError {
                line: line2,
                column: (src.len() - ls2) as nat,
                message: unterminated_message(),
            },
        ),
    ] + seq![spec_tok(TokenType::Eof, Seq::empty(), line2, None)]);
}

/// A character that no lexeme can start with yields exactly one lexical
/// error, and scanning resumes with the very next character.
pub proof fn lemma_unexpected_character(src: Seq<char>, pos: int, line: nat, ls: int)
    requires
        0 <= pos < src.len(),
        single_type(src[pos]) is None,
        two_char_types(src[pos]) is None,
        src[pos] != '/',
        src[pos] != ' ',
        src[pos] != '\r',
        src[pos] != '\t',
        src[pos] != '\n',
        src[pos] != '"',
        !is_digit_char(src[pos]),
        !alpha(src[pos]),
    ensures
        scan_at(src, pos, line, ls) == seq![
            SpecItem::Error(
                SpecScanError {
                    line,
                    column: (pos + 1 - ls) as nat,
                    message: unexpected_message(src[pos]),
                },
            ),
        ] + scan_at(src, pos + 1, line, ls),
{
}


// ---------------------------------------------------------------------------
// Rendering an error
// ---------------------------------------------------------------------------

/// The character for one decimal digit.
pub open spec fn digit_char(d: nat) -> char {
    if d == 0 {
        '0'
    } else if d == 1 {
        '1'
    } else if d == 2 {
        '2'
    } else if d == 3 {
        '3'
    } else if d == 4 {
        '4'
    } else if d == 5 {
        '5'
    } else if d == 6 {
        '6'
    } else if d == 7 {
        '7'
    } else if d == 8 {
        '8'
    } else {
        '9'
    }
}

/// The decimal digits of `n`, most significant first.
pub open spec fn dec_digits(n: nat) -> Seq<char>
    decreases n,
{
    if n < 10 {
        seq![digit_char(n)]
    } else {
        dec_digits(n / 10) + seq![digit_char(n % 10)]
    }
}

fn digit_c(d: usize) -> (c: char)
    requires
        d < 10,
    ensures
        c == digit_char(d as nat),
{
    if d == 0 {
        '0'
    } else if d == 1 {
        '1'
    } else if d == 2 {
        '2'
    } else if d == 3 {
        '3'
    } else if d == 4 {
        '4'
    } else if d == 5 {
        '5'
    } else if d == 6 {
        '6'
    } else if d == 7 {
        '7'
    } else if d == 8 {
        '8'
    } else {
        '9'
    }
}

/// Decimal rendering of an unsigned number.
fn usize_string(n: usize) -> (r: String)
    ensures
        r@ == dec_digits(n as nat),
    decreases n,
{
    let c = digit_c(n % 10);
    if n < 10 {
        let mut s = String::new();
        push_char(&mut s, c);
        proof {
            assert(s@ =~= dec_digits(n as nat));
        }
        s
    } else {
        let mut s = usize_string(n / 10);
        push_char(&mut s, c);
        proof {
            assert(s@ =~= dec_digits(n as nat));
        }
        s
    }
}

impl ScannerError {
    /// The human-readable form of the error:
    /// `[line <line>:<column>] Error: <message>`.
    pub fn render(&self) -> (r: String)
        ensures
            r@ == "[line "@ + dec_digits(self.line as nat) + ":"@ + dec_digits(self.column as nat)
                + "] Error: "@ + self.message@,
    {
        let mut s = String::from_str("[line ");
        let line = usize_string(self.line);
        s.append(line.as_str());
        s.append(":");
        let column = usize_string(self.column);
        s.append(column.as_str());
        s.append("] Error: ");
        s.append(self.message.as_str());
        proof {
            assert(s@ =~= "[line "@ + dec_digits(self.line as nat) + ":"@ + dec_digits(
                self.column as nat,
            ) + "] Error: "@ + self.message@);
        }
        s
    }
}

} // verus!
