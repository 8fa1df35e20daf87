use vstd::prelude::*;
use vstd::bytes::u32_from_le_bytes;
use vstd::string::StrSliceExecFns;

use vstd::bytes::spec_u32_from_le_bytes;
use vstd::utf8::encode_utf8;

use crate::schema::{
    def_view, dep_view, em_view, ems_view, item_view, items_view, kind_view, lemma_ems_view,
    lemma_items_view, lemma_mfs_view, lemma_sfs_view, lemma_uvs_view, lemma_wf_variant_defs_push,
    mf_view, mfs_view, sf_view, sfs_view, ty_view, uvs_view, wf_definition, wf_enum_members,
    wf_message_fields, wf_union_tags, wf_variant_defs, DefKind, DefKindM, Definition, DefinitionM,
    Deprecation, EnumMember, EnumMemberM, MessageField, MessageFieldM, SchemaItem, SchemaItemM,
    StructField, StructFieldM, TypeExpr, TypeExprM, UnionVariant, UnionVariantM,
};

verus! {

/// Why a schema text was rejected. All schema errors are fatal: the
/// generation step aborts, nothing is partially produced.
#[derive(Debug, Clone, Copy, PartialEq, Eq, Structural)]
pub enum ParseErrorKind {
    /// The input ended where a token was required.
    MissingToken,
    /// A token other than the required one was found.
    UnexpectedToken,
    /// A number token holds invalid digits or does not fit 32 bits.
    InvalidNumber,
    /// A quoted string literal is missing its closing quote.
    UnterminatedString,
    /// A string literal was required and something else was found.
    ExpectedStringLiteral,
    /// A definition keyword was required and something else was found.
    ExpectedDefinition,
    /// An opcode string literal is not exactly four bytes long.
    OpcodeNotFourBytes,
    /// A message or union field index is above 255.
    IndexTooLarge,
    /// A message field index is 0, which the wire format reserves for the
    /// terminator.
    IndexZero,
    /// An enum definition carries an opcode attribute.
    EnumWithOpcode,
    /// Two message or union fields share one index.
    DuplicateIndex,
    /// Two enum members share one discriminant.
    DuplicateEnumValue,
}

/// A fatal schema error and the character position where it was found.
#[derive(Debug, Clone, Copy, PartialEq, Eq, Structural)]
pub struct ParseError {
    pub kind: ParseErrorKind,
    pub at: usize,
}

/// ASCII whitespace, the blank characters the tokenizer skips.
pub open spec fn is_ws_char(c: char) -> bool {
    c == ' ' || c == '\t' || c == '\n' || c == '\r' || c == '\u{000b}' || c == '\u{000c}'
}

/// A character that may stand inside a word token: an ASCII letter, an ASCII
/// digit, or an underscore.
pub open spec fn is_word_char(c: char) -> bool {
    ||| 'a' as u32 <= c as u32 <= 'z' as u32
    ||| 'A' as u32 <= c as u32 <= 'Z' as u32
    ||| '0' as u32 <= c as u32 <= '9' as u32
    ||| c == '_'
}

/// A character that may start an identifier: a letter or an underscore.
pub open spec fn is_ident_start(c: char) -> bool {
    ||| 'a' as u32 <= c as u32 <= 'z' as u32
    ||| 'A' as u32 <= c as u32 <= 'Z' as u32
    ||| c == '_'
}

/// The position just past a `//` comment opened before `i`: the first line
/// break at or after `i`, or the end of input.
pub open spec fn line_end(s: Seq<char>, i: int) -> int
    decreases s.len() - i,
{
    if !(0 <= i < s.len()) {
        s.len() as int
    } else if s[i] == '\n' || s[i] == '\r' {
        i
    } else {
        line_end(s, i + 1)
    }
}

/// The position just past the `*/` closing a block comment whose body starts
/// at `i`, or the end of input if the comment is unterminated.
pub open spec fn block_end(s: Seq<char>, i: int) -> int
    decreases s.len() - i,
{
    if !(0 <= i && i + 1 < s.len()) {
        s.len() as int
    } else if s[i] == '*' && s[i + 1] == '/' {
        i + 2
    } else {
        block_end(s, i + 1)
    }
}

/// The first position at or after `i` holding the quote `q`, or the end of
/// input.
pub open spec fn quote_end(s: Seq<char>, i: int, q: char) -> int
    decreases s.len() - i,
{
    if !(0 <= i < s.len()) {
        s.len() as int
    } else if s[i] == q {
        i
    } else {
        quote_end(s, i + 1, q)
    }
}

/// The position of the next non-blank, non-comment character at or after `i`,
/// or the end of input. An unterminated block comment swallows the rest of
/// the input; that is documented behaviour, not an error.
pub open spec fn skip_ws(s: Seq<char>, i: int) -> int
    decreases s.len() - i,
{
    if !(0 <= i < s.len()) {
        i
    } else if is_ws_char(s[i]) {
        skip_ws(s, i + 1)
    } else if s[i] == '/' && i + 1 < s.len() && s[i + 1] == '/' {
        let e = line_end(s, i + 2);
        if i < e <= s.len() {
            skip_ws(s, e)
        } else {
            i
        }
    } else if s[i] == '/' && i + 1 < s.len() && s[i + 1] == '*' {
        let e = block_end(s, i + 2);
        if i < e <= s.len() {
            skip_ws(s, e)
        } else {
            i
        }
    } else {
        i
    }
}

/// The end of the maximal word starting at `i`: the first position at or
/// after `i` holding a non-word character, or the end of input.
pub open spec fn word_end(s: Seq<char>, i: int) -> int
    decreases s.len() - i,
{
    if !(0 <= i < s.len()) {
        s.len() as int
    } else if !is_word_char(s[i]) {
        i
    } else {
        word_end(s, i + 1)
    }
}

/// Where the token starting at the non-blank position `i` ends: a maximal run
/// of word characters, or one single other character.
pub open spec fn token_end(s: Seq<char>, i: int) -> int {
    if 0 <= i < s.len() && is_word_char(s[i]) {
        word_end(s, i)
    } else {
        i + 1
    }
}

/// The next token at or after position `i`, and the position just past it:
/// `None` at the end of input.
pub open spec fn next_tok(s: Seq<char>, i: int) -> Option<(Seq<char>, int)> {
    let j = skip_ws(s, i);
    if j >= s.len() {
        None
    } else {
        Some((s.subrange(j, token_end(s, j)), token_end(s, j)))
    }
}

pub proof fn lemma_line_end(s: Seq<char>, i: int)
    requires
        0 <= i <= s.len(),
    ensures
        i <= line_end(s, i) <= s.len(),
    decreases s.len() - i,
{
    if 0 <= i < s.len() && !(s[i] == '\n' || s[i] == '\r') {
        lemma_line_end(s, i + 1);
    }
}

pub proof fn lemma_block_end(s: Seq<char>, i: int)
    requires
        0 <= i <= s.len(),
    ensures
        i <= block_end(s, i) <= s.len(),
    decreases s.len() - i,
{
    if 0 <= i && i + 1 < s.len() && !(s[i] == '*' && s[i + 1] == '/') {
        lemma_block_end(s, i + 1);
    }
}

pub proof fn lemma_quote_end(s: Seq<char>, i: int, q: char)
    requires
        0 <= i <= s.len(),
    ensures
        i <= quote_end(s, i, q) <= s.len(),
    decreases s.len() - i,
{
    if 0 <= i < s.len() && s[i] != q {
        lemma_quote_end(s, i + 1, q);
    }
}

pub proof fn lemma_skip_ws(s: Seq<char>, i: int)
    requires
        0 <= i <= s.len(),
    ensures
        i <= skip_ws(s, i) <= s.len(),
    decreases s.len() - i,
{
    if 0 <= i < s.len() {
        if is_ws_char(s[i]) {
            lemma_skip_ws(s, i + 1);
        } else if s[i] == '/' && i + 1 < s.len() && s[i + 1] == '/' {
            lemma_line_end(s, i + 2);
            let e = line_end(s, i + 2);
            if i < e <= s.len() {
                lemma_skip_ws(s, e);
            }
        } else if s[i] == '/' && i + 1 < s.len() && s[i + 1] == '*' {
            lemma_block_end(s, i + 2);
            let e = block_end(s, i + 2);
            if i < e <= s.len() {
                lemma_skip_ws(s, e);
            }
        }
    }
}

/// Skipping blanks twice is the same as skipping them once.
pub proof fn lemma_skip_ws_idem(s: Seq<char>, i: int)
    requires
        0 <= i <= s.len(),
    ensures
        skip_ws(s, skip_ws(s, i)) == skip_ws(s, i),
    decreases s.len() - i,
{
    lemma_skip_ws(s, i);
    if 0 <= i < s.len() {
        if is_ws_char(s[i]) {
            lemma_skip_ws_idem(s, i + 1);
        } else if s[i] == '/' && i + 1 < s.len() && s[i + 1] == '/' {
            lemma_line_end(s, i + 2);
            let e = line_end(s, i + 2);
            if i < e <= s.len() {
                lemma_skip_ws_idem(s, e);
            }
        } else if s[i] == '/' && i + 1 < s.len() && s[i + 1] == '*' {
            lemma_block_end(s, i + 2);
            let e = block_end(s, i + 2);
            if i < e <= s.len() {
                lemma_skip_ws_idem(s, e);
            }
        }
    }
}

pub proof fn lemma_word_end(s: Seq<char>, i: int)
    requires
        0 <= i <= s.len(),
    ensures
        i <= word_end(s, i) <= s.len(),
    decreases s.len() - i,
{
    if 0 <= i < s.len() && is_word_char(s[i]) {
        lemma_word_end(s, i + 1);
    }
}

/// Whether `c` is ASCII whitespace; mirrors [`is_ws_char`].
fn ws_char(c: char) -> (b: bool)
    ensures
        b == is_ws_char(c),
{
    c == ' ' || c == '\t' || c == '\n' || c == '\r' || c == '\u{000b}' || c == '\u{000c}'
}

/// Whether `c` may stand inside a word token; mirrors [`is_word_char`].
fn word_char(c: char) -> (b: bool)
    ensures
        b == is_word_char(c),
{
    let u = c as u32;
    (97 <= u && u <= 122) || (65 <= u && u <= 90) || (48 <= u && u <= 57) || c == '_'
}

/// Whether `c` may start an identifier; mirrors [`is_ident_start`].
fn ident_start_char(c: char) -> (b: bool)
    ensures
        b == is_ident_start(c),
{
    let u = c as u32;
    (97 <= u && u <= 122) || (65 <= u && u <= 90) || c == '_'
}

/// The schema parser: the source text and the position of the next character
/// to look at. One `Parser` reads one text; imports are reported to the
/// caller as items, not resolved here.
pub struct Parser<'a> {
    src: &'a str,
    pos: usize,
}

impl<'a> Parser<'a> {
    /// The characters of the text being parsed.
    pub closed spec fn text(&self) -> Seq<char> {
        self.src@
    }

    /// The current character position.
    pub closed spec fn at(&self) -> int {
        self.pos as int
    }

    /// The position never runs past the end of the text.
    pub open spec fn wf(&self) -> bool {
        0 <= self.at() <= self.text().len()
    }

    /// A parser positioned at the start of `src`.
    pub fn new(src: &'a str) -> (r: Self)
        ensures
            r.wf(),
            r.text() == src@,
            r.at() == 0,
    {
        Parser { src, pos: 0 }
    }

    /// Skips blanks, `//` line comments and `/* */` block comments. An
    /// unterminated block comment consumes the rest of the input.
    pub fn skip_whitespace(&mut self)
        requires
            old(self).wf(),
        ensures
            final(self).wf(),
            final(self).text() == old(self).text(),
            final(self).at() == skip_ws(old(self).text(), old(self).at()),
            final(self).at() >= old(self).at(),
    {
        let ghost s = self.src@;
        let ghost p0 = self.pos as int;
        proof {
            lemma_skip_ws(s, p0);
        }
        let len = self.src.unicode_len();
        loop
            invariant
                self.src@ == s,
                0 <= self.pos <= len,
                len == s.len(),
                skip_ws(s, p0) == skip_ws(s, self.pos as int),
            ensures
                self.src@ == s,
                self.pos as int == skip_ws(s, p0),
            decreases s.len() - self.pos,
        {
            if self.pos >= len {
                break;
            }
            let c = self.src.get_char(self.pos);
            if ws_char(c) {
                self.pos = self.pos + 1;
            } else if c == '/' && self.pos + 1 < len {
                let c2 = self.src.get_char(self.pos + 1);
                if c2 == '/' {
                    let ghost e = line_end(s, self.pos + 2 as int);
                    proof {
                        lemma_line_end(s, self.pos + 2 as int);
                    }
                    let mut j: usize = self.pos + 2;
                    loop
                        invariant
                            self.src@ == s,
                            len == s.len(),
                            0 <= j <= len,
                            e == line_end(s, j as int),
                        ensures
                            j as int == e,
                        decreases s.len() - j,
                    {
                        if j >= len {
                            break;
                        }
                        let cj = self.src.get_char(j);
                        if cj == '\n' || cj == '\r' {
                            break;
                        }
                        j = j + 1;
                    }
                    self.pos = j;
                } else if c2 == '*' {
                    let ghost e = block_end(s, self.pos + 2 as int);
                    proof {
                        lemma_block_end(s, self.pos + 2 as int);
                    }
                    let mut j: usize = self.pos + 2;
                    loop
                        invariant_except_break
                            e == block_end(s, j as int),
                        invariant
                            self.src@ == s,
                            len == s.len(),
                            0 <= j <= len,
                        ensures
                            j as int == e,
                        decreases s.len() - j,
                    {
                        if len - j <= 1 {
                            j = len;
                            break;
                        }
                        let cj = self.src.get_char(j);
                        let cj2 = self.src.get_char(j + 1);
                        if cj == '*' && cj2 == '/' {
                            j = j + 2;
                            break;
                        }
                        j = j + 1;
                    }
                    self.pos = j;
                } else {
                    break;
                }
            } else {
                break;
            }
        }
    }

    /// Yields the next token: a maximal run of word characters, or one single
    /// other character; `None` at the end of input.
    pub fn next_token(&mut self) -> (r: Option<String>)
        requires
            old(self).wf(),
        ensures
            final(self).wf(),
            final(self).text() == old(self).text(),
            final(self).at() >= old(self).at(),
            match next_tok(old(self).text(), old(self).at()) {
                None => r is None && final(self).at() == old(self).text().len(),
                Some(t) => r matches Some(tok) && tok@ == t.0 && final(self).at() == t.1,
            },
    {
        let ghost s = self.src@;
        self.skip_whitespace();
        proof {
            lemma_skip_ws(s, old(self).at());
        }
        let len = self.src.unicode_len();
        if self.pos >= len {
            return None;
        }
        proof {
            lemma_token_end(s, self.pos as int);
        }
        let start = self.pos;
        let c = self.src.get_char(start);
        if word_char(c) {
            let ghost e = word_end(s, start as int);
            proof {
                lemma_word_end(s, start as int);
            }
            let mut j: usize = start + 1;
            loop
                invariant
                    self.src@ == s,
                    self.pos == start,
                    len == s.len(),
                    0 <= j <= len,
                    e == word_end(s, j as int),
                ensures
                    j as int == e,
                decreases s.len() - j,
            {
                if j >= len {
                    break;
                }
                let cj = self.src.get_char(j);
                if !word_char(cj) {
                    break;
                }
                j = j + 1;
            }
            let t = self.src.substring_char(start, j);
            self.pos = j;
            Some(t.to_owned())
        } else {
            let t = self.src.substring_char(start, start + 1);
            self.pos = start + 1;
            Some(t.to_owned())
        }
    }

    /// Whether the text at the next non-blank position starts with `next`,
    /// letter for letter. Blanks and comments before it are consumed.
    pub fn is_next(&mut self, next: &str) -> (r: bool)
        requires
            old(self).wf(),
        ensures
            final(self).wf(),
            final(self).text() == old(self).text(),
            final(self).at() == skip_ws(old(self).text(), old(self).at()),
            final(self).at() >= old(self).at(),
            r == has_prefix(old(self).text(), final(self).at(), next@),
    {
        let ghost s = self.src@;
        self.skip_whitespace();
        proof {
            lemma_skip_ws(s, old(self).at());
        }
        let len = self.src.unicode_len();
        let n = next.unicode_len();
        if n > len - self.pos {
            proof {
                assert(!has_prefix(s, self.at(), next@));
            }
            return false;
        }
        let ghost p = self.pos as int;
        let mut k: usize = 0;
        loop
            invariant
                self.src@ == s,
                self.pos as int == p,
                0 <= p,
                p + n <= s.len(),
                len == s.len(),
                n == next@.len(),
                0 <= k <= n,
                forall|m: int| 0 <= m < k ==> s[p + m] == next@[m],
            ensures
                (k == n && forall|m: int| 0 <= m < n ==> s[p + m] == next@[m]) || (k < n && s[p
                    + k as int] != next@[k as int]),
            decreases n - k,
        {
            if k >= n {
                break;
            }
            let a = self.src.get_char(self.pos + k);
            let b = next.get_char(k);
            if a != b {
                break;
            }
            k = k + 1;
        }
        if k == n {
            proof {
                assert(s.subrange(p, p + n as int) =~= next@);
            }
            true
        } else {
            proof {
                assert(s.subrange(p, p + n as int) != next@) by {
                    assert(s.subrange(p, p + n as int)[k as int] != next@[k as int]);
                }
            }
            false
        }
    }

    /// Consumes the next token and demands that it be exactly `expected`.
    pub fn expect(&mut self, expected: &str) -> (r: Result<(), ParseError>)
        requires
            old(self).wf(),
        ensures
            final(self).wf(),
            final(self).text() == old(self).text(),
            final(self).at() >= old(self).at(),
            match next_tok(old(self).text(), old(self).at()) {
                None => r matches Err(e) && e.kind == ParseErrorKind::MissingToken,
                Some(t) => if t.0 == expected@ {
                    r is Ok && final(self).at() == t.1 && final(self).at() > old(self).at()
                } else {
                    r matches Err(e) && e.kind == ParseErrorKind::UnexpectedToken
                },
            },
    {
        proof {
            lemma_skip_ws(old(self).text(), old(self).at());
            if skip_ws(old(self).text(), old(self).at()) < old(self).text().len() {
                lemma_token_end(old(self).text(), skip_ws(old(self).text(), old(self).at()));
            }
        }
        match self.next_token() {
            None => Err(ParseError { kind: ParseErrorKind::MissingToken, at: self.pos }),
            Some(tok) => {
                if str_eq(tok.as_str(), expected) {
                    Ok(())
                } else {
                    Err(ParseError { kind: ParseErrorKind::UnexpectedToken, at: self.pos })
                }
            },
        }
    }

    /// Consumes the next token and demands that it be an identifier: a word
    /// starting with a letter or an underscore.
    pub fn parse_identifier(&mut self) -> (r: Result<String, ParseError>)
        requires
            old(self).wf(),
        ensures
            final(self).wf(),
            final(self).text() == old(self).text(),
            final(self).at() >= old(self).at(),
            match next_tok(old(self).text(), old(self).at()) {
                None => r matches Err(e) && e.kind == ParseErrorKind::MissingToken,
                Some(t) => if spec_is_ident(t.0) {
                    r matches Ok(id) && id@ == t.0 && final(self).at() == t.1 && final(self).at()
                        > old(self).at()
                } else {
                    r matches Err(e) && e.kind == ParseErrorKind::UnexpectedToken
                },
            },
    {
        proof {
            lemma_skip_ws(old(self).text(), old(self).at());
            if skip_ws(old(self).text(), old(self).at()) < old(self).text().len() {
                lemma_token_end(old(self).text(), skip_ws(old(self).text(), old(self).at()));
            }
        }
        match self.next_token() {
            None => Err(ParseError { kind: ParseErrorKind::MissingToken, at: self.pos }),
            Some(tok) => {
                if tok.as_str().unicode_len() > 0 && ident_start_char(tok.as_str().get_char(0)) {
                    Ok(tok)
                } else {
                    Err(ParseError { kind: ParseErrorKind::UnexpectedToken, at: self.pos })
                }
            },
        }
    }

    /// Consumes the next token and demands that it be a 32-bit number,
    /// decimal by default, hexadecimal with a `0x` prefix. Invalid digits and
    /// values over 32 bits are fatal.
    pub fn parse_number(&mut self) -> (r: Result<u32, ParseError>)
        requires
            old(self).wf(),
        ensures
            final(self).wf(),
            final(self).text() == old(self).text(),
            final(self).at() >= old(self).at(),
            match next_tok(old(self).text(), old(self).at()) {
                None => r matches Err(e) && e.kind == ParseErrorKind::MissingToken,
                Some(t) => if spec_number_ok(t.0) {
                    r matches Ok(v) && v == spec_number_val(t.0) && final(self).at() == t.1
                        && final(self).at() > old(self).at()
                } else {
                    r matches Err(e) && e.kind == ParseErrorKind::InvalidNumber
                },
            },
    {
        proof {
            lemma_skip_ws(old(self).text(), old(self).at());
            if skip_ws(old(self).text(), old(self).at()) < old(self).text().len() {
                lemma_token_end(old(self).text(), skip_ws(old(self).text(), old(self).at()));
            }
        }
        match self.next_token() {
            None => Err(ParseError { kind: ParseErrorKind::MissingToken, at: self.pos }),
            Some(tok) => {
                let t = tok.as_str();
                let n = t.unicode_len();
                let hex = n >= 2 && t.get_char(0) == '0' && t.get_char(1) == 'x';
                let start: usize = if hex {
                    2
                } else {
                    0
                };
                let radix: u64 = if hex {
                    16
                } else {
                    10
                };
                let ghost digits = if hex {
                    t@.skip(2)
                } else {
                    t@
                };
                if n == start {
                    return Err(ParseError { kind: ParseErrorKind::InvalidNumber, at: self.pos });
                }
                let mut acc: u64 = 0;
                let mut k: usize = start;
                loop
                    invariant
                        self.wf(),
                        self.text() == old(self).text(),
                        (match next_tok(old(self).text(), old(self).at()) {
                            Some(tt) => tt.0 == t@ && tt.1 == self.at() && self.at() > old(
                                self,
                            ).at(),
                            None => false,
                        }),
                        hex == (t@.len() >= 2 && t@[0] == '0' && t@[1] == 'x'),
                        start == (if hex { 2int } else { 0int }),
                        t@.len() == n,
                        start <= k <= n,
                        start < n,
                        radix == if hex { 16int } else { 10int },
                        digits == t@.skip(start as int),
                        acc == digits_val(digits.take(k - start), radix as int),
                        acc <= u32::MAX,
                        digits_ok(digits.take(k - start), radix as int) || k == start,
                    ensures
                        k == n && acc == digits_val(digits, radix as int) && digits_ok(
                            digits,
                            radix as int,
                        ) && acc <= u32::MAX,
                    decreases n - k,
                {
                    if k >= n {
                        proof {
                            assert(digits.take(n - start) =~= digits);
                        }
                        break;
                    }
                    let c = t.get_char(k);
                    let u = c as u32;
                    let d: u32 = if 48 <= u && u <= 57 {
                        u - 48
                    } else if hex && 97 <= u && u <= 102 {
                        u - 87
                    } else if hex && 65 <= u && u <= 70 {
                        u - 55
                    } else {
                        proof {
                            assert(digits[k - start] == t@[k as int]);
                            if hex {
                                assert(!is_hex_digit(t@[k as int]));
                            } else {
                                assert(!is_dec_digit(t@[k as int]));
                            }
                            assert(!digits_ok(digits, radix as int));
                            assert(!spec_number_ok(t@));
                        }
                        return Err(ParseError {
                            kind: ParseErrorKind::InvalidNumber,
                            at: self.pos,
                        });
                    };
                    let next_acc: u64 = acc * radix + d as u64;
                    proof {
                        let pre = digits.take(k - start);
                        let ext = digits.take(k + 1 - start);
                        assert(ext.drop_last() =~= pre);
                        assert(ext.last() == digits[k - start]);
                        assert(digits[k - start] == t@[k as int]);
                        assert(d == digit_val(digits[k - start]));
                        assert(digits_val(ext, radix as int) == acc * radix + d);
                        assert(digits_ok(ext, radix as int));
                    }
                    if next_acc > 0xffff_ffff {
                        proof {
                            assert(t@.skip(0) =~= t@);
                            if spec_number_ok(t@) {
                                lemma_digits_val_prefix(digits, radix as int, k + 1 - start);
                                assert(digits_val(digits.take(k + 1 - start), radix as int)
                                    <= digits_val(digits, radix as int));
                                assert(false);
                            }
                        }
                        return Err(ParseError {
                            kind: ParseErrorKind::InvalidNumber,
                            at: self.pos,
                        });
                    }
                    acc = next_acc;
                    k = k + 1;
                }
                Ok(acc as u32)
            },
        }
    }

    /// Consumes a single- or double-quoted string literal, with no escape
    /// processing; the closing quote must match the opening one.
    pub fn parse_string_literal(&mut self) -> (r: Result<String, ParseError>)
        requires
            old(self).wf(),
        ensures
            final(self).wf(),
            final(self).text() == old(self).text(),
            final(self).at() >= old(self).at(),
            ({
                let s = old(self).text();
                let j = skip_ws(s, old(self).at());
                if j >= s.len() || (s[j] != '\'' && s[j] != '"') {
                    r matches Err(e) && e.kind == ParseErrorKind::ExpectedStringLiteral
                } else {
                    let e = quote_end(s, j + 1, s[j]);
                    if e >= s.len() {
                        r matches Err(pe) && pe.kind == ParseErrorKind::UnterminatedString
                    } else {
                        r matches Ok(lit) && lit@ == s.subrange(j + 1, e) && final(self).at() == e
                            + 1 && final(self).at() > old(self).at()
                    }
                }
            }),
    {
        let ghost s = self.src@;
        self.skip_whitespace();
        proof {
            lemma_skip_ws(s, old(self).at());
        }
        let len = self.src.unicode_len();
        if self.pos >= len {
            return Err(ParseError { kind: ParseErrorKind::ExpectedStringLiteral, at: self.pos });
        }
        let q = self.src.get_char(self.pos);
        if q != '\'' && q != '"' {
            return Err(ParseError { kind: ParseErrorKind::ExpectedStringLiteral, at: self.pos });
        }
        let ghost qe = quote_end(s, self.pos + 1 as int, q);
        proof {
            lemma_quote_end(s, self.pos + 1 as int, q);
        }
        let start = self.pos + 1;
        let mut j: usize = start;
        loop
            invariant
                self.src@ == s,
                len == s.len(),
                0 <= j <= len,
                qe == quote_end(s, j as int, q),
            ensures
                j as int == qe,
            decreases s.len() - j,
        {
            if j >= len {
                break;
            }
            let cj = self.src.get_char(j);
            if cj == q {
                break;
            }
            j = j + 1;
        }
        if j >= len {
            return Err(ParseError { kind: ParseErrorKind::UnterminatedString, at: self.pos });
        }
        let lit = self.src.substring_char(start, j);
        self.pos = j + 1;
        Ok(lit.to_owned())
    }

    /// Parses a type expression: `map[K, V]`, `array[T]`, a primitive, a
    /// built-in value type, or a named reference, followed by any number of
    /// `[]` suffixes, each of which wraps the type in one more array.
    pub fn parse_type(&mut self) -> (r: Result<TypeExpr, ParseError>)
        requires
            old(self).wf(),
        ensures
            final(self).wf(),
            final(self).text() == old(self).text(),
            final(self).at() >= old(self).at(),
            r is Ok ==> final(self).at() > old(self).at(),
            match spec_type(old(self).text(), old(self).at()) {
                Ok(p) => r matches Ok(ty) && ty_view(ty) == p.0 && final(self).at() == p.1,
                Err(k) => r matches Err(e) && e.kind == k,
            },
        decreases old(self).text().len() - old(self).at(),
    {
        let ghost s = self.src@;
        let ghost p0 = self.at();
        proof {
            lemma_skip_ws(s, p0);
            if skip_ws(s, p0) < s.len() {
                lemma_token_end(s, skip_ws(s, p0));
            }
        }
        let tok = match self.next_token() {
            None => {
                return Err(ParseError { kind: ParseErrorKind::MissingToken, at: self.pos });
            },
            Some(t) => t,
        };
        let mut ty: TypeExpr;
        if str_eq(tok.as_str(), "map") {
            self.expect("[")?;
            let key = self.parse_type()?;
            self.expect(",")?;
            let value = self.parse_type()?;
            self.expect("]")?;
            ty = TypeExpr::Mapping(Box::new(key), Box::new(value));
        } else if str_eq(tok.as_str(), "array") {
            self.expect("[")?;
            let element = self.parse_type()?;
            self.expect("]")?;
            ty = TypeExpr::Array(Box::new(element));
        } else if str_eq(tok.as_str(), "string") {
            ty = TypeExpr::Text;
        } else if str_eq(tok.as_str(), "bool") {
            ty = TypeExpr::Boolean;
        } else if str_eq(tok.as_str(), "byte") || str_eq(tok.as_str(), "uint8") {
            ty = TypeExpr::UInt8;
        } else if str_eq(tok.as_str(), "int8") {
            ty = TypeExpr::Int8;
        } else if str_eq(tok.as_str(), "uint16") {
            ty = TypeExpr::UInt16;
        } else if str_eq(tok.as_str(), "int16") {
            ty = TypeExpr::Int16;
        } else if str_eq(tok.as_str(), "uint32") {
            ty = TypeExpr::UInt32;
        } else if str_eq(tok.as_str(), "int32") {
            ty = TypeExpr::Int32;
        } else if str_eq(tok.as_str(), "uint64") {
            ty = TypeExpr::UInt64;
        } else if str_eq(tok.as_str(), "int64") {
            ty = TypeExpr::Int64;
        } else if str_eq(tok.as_str(), "float32") {
            ty = TypeExpr::Float32;
        } else if str_eq(tok.as_str(), "float64") {
            ty = TypeExpr::Float64;
        } else if str_eq(tok.as_str(), "date") {
            ty = TypeExpr::DateType;
        } else if str_eq(tok.as_str(), "guid") {
            ty = TypeExpr::GuidType;
        } else {
            let n = tok.as_str().unicode_len();
            if n > 0 && ident_start_char(tok.as_str().get_char(0)) {
                ty = TypeExpr::Named(tok);
            } else {
                return Err(ParseError { kind: ParseErrorKind::UnexpectedToken, at: self.pos });
            }
        }
        proof {
            assert(spec_type(s, p0) == spec_suffixes(s, self.at(), ty_view(ty)));
        }
        loop
            invariant_except_break
                spec_type(s, p0) == spec_suffixes(s, self.at(), ty_view(ty)),
            invariant
                self.wf(),
                s == old(self).text(),
                p0 == old(self).at(),
                self.text() == s,
                self.at() > p0,
            ensures
                self.wf(),
                self.text() == s,
                self.at() > p0,
                spec_type(s, p0) == Ok::<(TypeExprM, int), ParseErrorKind>(
                    (ty_view(ty), self.at()),
                ),
            decreases s.len() - self.at(),
        {
            if !self.is_next("[") {
                break;
            }
            self.expect("[")?;
            self.expect("]")?;
            ty = TypeExpr::Array(Box::new(ty));
        }
        Ok(ty)
    }

    /// Parses an optional `[opcode(...)]` attribute. A numeric argument is
    /// the opcode itself; a string literal must hold exactly four bytes,
    /// which are read as a little-endian 32-bit value.
    pub fn parse_opcode(&mut self) -> (r: Result<Option<u32>, ParseError>)
        requires
            old(self).wf(),
        ensures
            final(self).wf(),
            final(self).text() == old(self).text(),
            final(self).at() >= old(self).at(),
            (r matches Ok(o) && o is Some) ==> final(self).at() > old(self).at(),
            match spec_opcode(old(self).text(), old(self).at()) {
                Ok(p) => r matches Ok(o) && o == p.0 && final(self).at() == p.1,
                Err(k) => r matches Err(e) && e.kind == k,
            },
    {
        let ghost s = self.src@;
        let ghost p0 = self.at();
        proof {
            lemma_skip_ws(s, p0);
            reveal_strlit("[");
            assert("["@ =~= seq!['[']);
        }
        if !self.is_next("[") {
            return Ok(None);
        }
        self.expect("[")?;
        self.expect("opcode")?;
        self.expect("(")?;
        self.skip_whitespace();
        let len = self.src.unicode_len();
        let mut numeric = false;
        if self.pos < len {
            let c = self.src.get_char(self.pos);
            let u = c as u32;
            if 48 <= u && u <= 57 {
                numeric = true;
            }
        }
        let opcode: u32;
        if numeric {
            opcode = self.parse_number()?;
        } else {
            let lit = self.parse_string_literal()?;
            let bytes = lit.as_str().as_bytes_vec();
            if bytes.len() != 4 {
                return Err(ParseError { kind: ParseErrorKind::OpcodeNotFourBytes, at: self.pos });
            }
            opcode = u32_from_le_bytes(bytes.as_slice());
        }
        self.expect(")")?;
        self.expect("]")?;
        Ok(Some(opcode))
    }

    /// Parses an optional `[deprecated]` or `[deprecated("note")]`
    /// attribute.
    pub fn parse_deprecated(&mut self) -> (r: Result<Option<Deprecation>, ParseError>)
        requires
            old(self).wf(),
        ensures
            final(self).wf(),
            final(self).text() == old(self).text(),
            final(self).at() >= old(self).at(),
            match spec_deprecated(old(self).text(), old(self).at()) {
                Ok(p) => r matches Ok(o) && dep_view(o) == p.0 && final(self).at() == p.1,
                Err(k) => r matches Err(e) && e.kind == k,
            },
    {
        let ghost s = self.src@;
        let ghost p0 = self.at();
        proof {
            lemma_skip_ws(s, p0);
            reveal_strlit("[");
            assert("["@ =~= seq!['[']);
            reveal_strlit("]");
            assert("]"@ =~= seq![']']);
        }
        if !self.is_next("[") {
            return Ok(None);
        }
        self.expect("[")?;
        self.expect("deprecated")?;
        let note: Option<String>;
        if self.is_next("]") {
            note = None;
        } else {
            self.expect("(")?;
            let message = self.parse_string_literal()?;
            self.expect(")")?;
            note = Some(message);
        }
        self.expect("]")?;
        Ok(Some(Deprecation { note }))
    }

    /// Parses the members of an enum body, up to and including the closing
    /// brace: `name = number ;` per member, each optionally deprecated, with
    /// repeated discriminants fatal.
    #[verifier::rlimit(100)]
    fn parse_enum_members(&mut self) -> (r: Result<Vec<EnumMember>, ParseError>)
        requires
            old(self).wf(),
        ensures
            final(self).wf(),
            final(self).text() == old(self).text(),
            r is Ok ==> final(self).at() > old(self).at(),
            match spec_enum_members(old(self).text(), old(self).at(), Seq::empty()) {
                Ok(p) => r matches Ok(ms) && wf_enum_members(ms@) && ems_view(ms@) == p.0
                    && final(self).at() == p.1,
                Err(k) => r matches Err(e) && e.kind == k,
            },
        decreases old(self).text().len() - old(self).at(), 1nat,
    {
        let ghost s = self.src@;
        let ghost p0 = self.at();
        let mut members: Vec<EnumMember> = Vec::new();
        proof {
            assert(Seq::new(members@.len(), |k: int| members@[k].value) =~= Seq::<u32>::empty());
            assert(ems_view(members@) =~= Seq::<EnumMemberM>::empty());
            let r0 = spec_enum_members(s, p0, Seq::<u32>::empty());
            if r0 is Ok {
                assert(Seq::<EnumMemberM>::empty() + r0->Ok_0.0 =~= r0->Ok_0.0);
            }
        }
        loop
            invariant_except_break
                spec_enum_members(s, p0, Seq::empty()) == (match spec_enum_members(
                    s,
                    self.at(),
                    Seq::new(members@.len(), |k: int| members@[k].value),
                ) {
                    Err(k) => Err::<(Seq<EnumMemberM>, int), ParseErrorKind>(k),
                    Ok(mp) => Ok::<(Seq<EnumMemberM>, int), ParseErrorKind>(
                        (ems_view(members@) + mp.0, mp.1),
                    ),
                }),
            invariant
                self.wf(),
                s == old(self).text(),
                p0 == old(self).at(),
                self.text() == s,
                self.at() >= p0,
                wf_enum_members(members@),
            ensures
                self.wf(),
                self.text() == s,
                self.at() >= p0,
                wf_enum_members(members@),
                spec_enum_members(s, p0, Seq::empty()) == (match spec_expect(
                    s,
                    self.at(),
                    "}"@,
                ) {
                    Err(k) => Err::<(Seq<EnumMemberM>, int), ParseErrorKind>(k),
                    Ok(j2) => Ok::<(Seq<EnumMemberM>, int), ParseErrorKind>(
                        (ems_view(members@), j2),
                    ),
                }),
            decreases s.len() - self.at(),
        {
            let ghost cur = self.at();
            let ghost seen = Seq::new(members@.len(), |k: int| members@[k].value);
            if self.is_next("}") {
                proof {
                    assert(ems_view(members@) + Seq::<EnumMemberM>::empty() =~= ems_view(
                        members@,
                    ));
                }
                break;
            }
            let dep = self.parse_deprecated()?;
            let mname = self.parse_identifier()?;
            self.expect("=")?;
            let value = self.parse_number()?;
            self.expect(";")?;
            let dup = enum_has_value(&members, value);
            proof {
                if dup {
                    let k = choose|k: int|
                        0 <= k < members@.len() && (#[trigger] members@[k].value) == value;
                    assert(seen[k] == value);
                    assert(seen.contains(value));
                }
                if seen.contains(value) {
                    let k = choose|k: int| 0 <= k < seen.len() && seen[k] == value;
                    assert(members@[k].value == value);
                }
            }
            if dup {
                return Err(ParseError { kind: ParseErrorKind::DuplicateEnumValue, at: self.pos });
            }
            let ghost ms0 = members@;
            let ghost mnv = mname@;
            let ghost depv = dep_view(dep);
            members.push(EnumMember { name: mname, value, deprecated: dep });
            proof {
                assert forall|i: int, j: int| 0 <= i < j < members@.len() implies members@[i].value
                    != members@[j].value by {
                    if j < ms0.len() {
                        assert(ms0[i].value != ms0[j].value);
                    } else {
                        assert(members@[j].value == value);
                        assert(ms0[i].value != value);
                    }
                }
                assert(ms0 =~= members@.drop_last());
                lemma_ems_view(members@);
                lemma_ems_view(ms0);
                assert(ems_view(members@) =~= ems_view(ms0) + seq![
                    EnumMemberM { name: mnv, value, deprecated: depv },
                ]);
                assert(Seq::new(members@.len(), |k: int| members@[k].value) =~= seen.push(value));
                let rr = spec_enum_members(s, self.at(), seen.push(value));
                if rr is Ok {
                    assert(ems_view(ms0) + (seq![EnumMemberM { name: mnv, value, deprecated: depv }]
                        + rr->Ok_0.0) =~= ems_view(members@) + rr->Ok_0.0);
                }
            }
        }
        self.expect("}")?;
        Ok(members)
    }

    /// Parses the fields of a struct body, up to and including the closing
    /// brace: `type name ;` per field.
    #[verifier::rlimit(100)]
    fn parse_struct_fields(&mut self) -> (r: Result<Vec<StructField>, ParseError>)
        requires
            old(self).wf(),
        ensures
            final(self).wf(),
            final(self).text() == old(self).text(),
            r is Ok ==> final(self).at() > old(self).at(),
            match spec_struct_fields(old(self).text(), old(self).at()) {
                Ok(p) => r matches Ok(fs) && sfs_view(fs@) == p.0 && final(self).at() == p.1,
                Err(k) => r matches Err(e) && e.kind == k,
            },
        decreases old(self).text().len() - old(self).at(), 1nat,
    {
        let ghost s = self.src@;
        let ghost p0 = self.at();
        let mut fields: Vec<StructField> = Vec::new();
        proof {
            assert(sfs_view(fields@) =~= Seq::<StructFieldM>::empty());
            let r0 = spec_struct_fields(s, p0);
            if r0 is Ok {
                assert(Seq::<StructFieldM>::empty() + r0->Ok_0.0 =~= r0->Ok_0.0);
            }
        }
        loop
            invariant_except_break
                spec_struct_fields(s, p0) == (match spec_struct_fields(s, self.at()) {
                    Err(k) => Err::<(Seq<StructFieldM>, int), ParseErrorKind>(k),
                    Ok(fp) => Ok::<(Seq<StructFieldM>, int), ParseErrorKind>(
                        (sfs_view(fields@) + fp.0, fp.1),
                    ),
                }),
            invariant
                self.wf(),
                s == old(self).text(),
                p0 == old(self).at(),
                self.text() == s,
                self.at() >= p0,
            ensures
                self.wf(),
                self.text() == s,
                self.at() >= p0,
                spec_struct_fields(s, p0) == (match spec_expect(s, self.at(), "}"@) {
                    Err(k) => Err::<(Seq<StructFieldM>, int), ParseErrorKind>(k),
                    Ok(j2) => Ok::<(Seq<StructFieldM>, int), ParseErrorKind>(
                        (sfs_view(fields@), j2),
                    ),
                }),
            decreases s.len() - self.at(),
        {
            if self.is_next("}") {
                proof {
                    assert(sfs_view(fields@) + Seq::<StructFieldM>::empty() =~= sfs_view(
                        fields@,
                    ));
                }
                break;
            }
            let ty = self.parse_type()?;
            let fname = self.parse_identifier()?;
            self.expect(";")?;
            let ghost fs0 = fields@;
            let ghost tyv = ty_view(ty);
            let ghost fnv = fname@;
            fields.push(StructField { ty, name: fname });
            proof {
                assert(fs0 =~= fields@.drop_last());
                lemma_sfs_view(fields@);
                lemma_sfs_view(fs0);
                assert(sfs_view(fields@) =~= sfs_view(fs0) + seq![
                    StructFieldM { ty: tyv, name: fnv },
                ]);
                let rr = spec_struct_fields(s, self.at());
                if rr is Ok {
                    assert(sfs_view(fs0) + (seq![StructFieldM { ty: tyv, name: fnv }] + rr->Ok_0.0)
                        =~= sfs_view(fields@) + rr->Ok_0.0);
                }
            }
        }
        self.expect("}")?;
        Ok(fields)
    }

    /// Parses the fields of a message body, up to and including the closing
    /// brace: `number -> type name ;` per field, each optionally deprecated.
    /// An index above 255, the reserved index 0, and a repeated index are
    /// fatal.
    #[verifier::rlimit(100)]
    fn parse_message_fields(&mut self) -> (r: Result<Vec<MessageField>, ParseError>)
        requires
            old(self).wf(),
        ensures
            final(self).wf(),
            final(self).text() == old(self).text(),
            r is Ok ==> final(self).at() > old(self).at(),
            match spec_message_fields(old(self).text(), old(self).at(), Seq::empty()) {
                Ok(p) => r matches Ok(fs) && wf_message_fields(fs@) && mfs_view(fs@) == p.0
                    && final(self).at() == p.1,
                Err(k) => r matches Err(e) && e.kind == k,
            },
        decreases old(self).text().len() - old(self).at(), 1nat,
    {
        let ghost s = self.src@;
        let ghost p0 = self.at();
        let mut fields: Vec<MessageField> = Vec::new();
        proof {
            assert(Seq::new(fields@.len(), |k: int| fields@[k].index) =~= Seq::<u8>::empty());
            assert(mfs_view(fields@) =~= Seq::<MessageFieldM>::empty());
            let r0 = spec_message_fields(s, p0, Seq::<u8>::empty());
            if r0 is Ok {
                assert(Seq::<MessageFieldM>::empty() + r0->Ok_0.0 =~= r0->Ok_0.0);
            }
        }
        loop
            invariant_except_break
                spec_message_fields(s, p0, Seq::empty()) == (match spec_message_fields(
                    s,
                    self.at(),
                    Seq::new(fields@.len(), |k: int| fields@[k].index),
                ) {
                    Err(k) => Err::<(Seq<MessageFieldM>, int), ParseErrorKind>(k),
                    Ok(fp) => Ok::<(Seq<MessageFieldM>, int), ParseErrorKind>(
                        (mfs_view(fields@) + fp.0, fp.1),
                    ),
                }),
            invariant
                self.wf(),
                s == old(self).text(),
                p0 == old(self).at(),
                self.text() == s,
                self.at() >= p0,
                wf_message_fields(fields@),
            ensures
                self.wf(),
                self.text() == s,
                self.at() >= p0,
                wf_message_fields(fields@),
                spec_message_fields(s, p0, Seq::empty()) == (match spec_expect(
                    s,
                    self.at(),
                    "}"@,
                ) {
                    Err(k) => Err::<(Seq<MessageFieldM>, int), ParseErrorKind>(k),
                    Ok(j2) => Ok::<(Seq<MessageFieldM>, int), ParseErrorKind>(
                        (mfs_view(fields@), j2),
                    ),
                }),
            decreases s.len() - self.at(),
        {
            let ghost seen = Seq::new(fields@.len(), |k: int| fields@[k].index);
            if self.is_next("}") {
                proof {
                    assert(mfs_view(fields@) + Seq::<MessageFieldM>::empty() =~= mfs_view(
                        fields@,
                    ));
                }
                break;
            }
            let dep = self.parse_deprecated()?;
            let index = self.parse_number()?;
            if index > 255 {
                return Err(ParseError { kind: ParseErrorKind::IndexTooLarge, at: self.pos });
            }
            if index == 0 {
                return Err(ParseError { kind: ParseErrorKind::IndexZero, at: self.pos });
            }
            let idx = index as u8;
            let dup = msg_has_index(&fields, idx);
            proof {
                if dup {
                    let k = choose|k: int|
                        0 <= k < fields@.len() && (#[trigger] fields@[k].index) == idx;
                    assert(seen[k] == idx);
                    assert(seen.contains(idx));
                }
                if seen.contains(idx) {
                    let k = choose|k: int| 0 <= k < seen.len() && seen[k] == idx;
                    assert(fields@[k].index == idx);
                }
            }
            if dup {
                return Err(ParseError { kind: ParseErrorKind::DuplicateIndex, at: self.pos });
            }
            self.expect("-")?;
            self.expect(">")?;
            let ty = self.parse_type()?;
            let fname = self.parse_identifier()?;
            self.expect(";")?;
            let ghost fs0 = fields@;
            let ghost tyv = ty_view(ty);
            let ghost fnv = fname@;
            let ghost depv = dep_view(dep);
            fields.push(MessageField { index: idx, ty, name: fname, deprecated: dep });
            proof {
                assert forall|i: int| 0 <= i < fields@.len() implies (#[trigger] fields@[i].index)
                    != 0 by {
                    if i < fs0.len() {
                        assert(fs0[i].index != 0);
                    }
                }
                assert forall|i: int, j: int| 0 <= i < j < fields@.len() implies fields@[i].index
                    != fields@[j].index by {
                    if j < fs0.len() {
                        assert(fs0[i].index != fs0[j].index);
                    } else {
                        assert(fs0[i].index != idx);
                    }
                }
                assert(fs0 =~= fields@.drop_last());
                lemma_mfs_view(fields@);
                lemma_mfs_view(fs0);
                assert(mfs_view(fields@) =~= mfs_view(fs0) + seq![
                    MessageFieldM { index: idx, ty: tyv, name: fnv, deprecated: depv },
                ]);
                assert(Seq::new(fields@.len(), |k: int| fields@[k].index) =~= seen.push(idx));
                let rr = spec_message_fields(s, self.at(), seen.push(idx));
                if rr is Ok {
                    assert(mfs_view(fs0) + (seq![
                        MessageFieldM { index: idx, ty: tyv, name: fnv, deprecated: depv },
                    ] + rr->Ok_0.0) =~= mfs_view(fields@) + rr->Ok_0.0);
                }
            }
        }
        self.expect("}")?;
        Ok(fields)
    }

    /// Parses the variants of a union body, up to and including the closing
    /// brace: `number -> definition` per variant. An index above 255 and a
    /// repeated index are fatal; index 0 is legal here.
    #[verifier::rlimit(100)]
    fn parse_union_variants(&mut self) -> (r: Result<Vec<UnionVariant>, ParseError>)
        requires
            old(self).wf(),
        ensures
            final(self).wf(),
            final(self).text() == old(self).text(),
            r is Ok ==> final(self).at() > old(self).at(),
            match spec_union_variants(old(self).text(), old(self).at(), Seq::empty()) {
                Ok(p) => r matches Ok(vs) && wf_union_tags(vs@) && wf_variant_defs(vs@)
                    && uvs_view(vs@) == p.0 && final(self).at() == p.1,
                Err(k) => r matches Err(e) && e.kind == k,
            },
        decreases old(self).text().len() - old(self).at(), 1nat,
    {
        let ghost s = self.src@;
        let ghost p0 = self.at();
        let mut variants: Vec<UnionVariant> = Vec::new();
        proof {
            assert(Seq::new(variants@.len(), |k: int| variants@[k].index) =~= Seq::<u8>::empty());
            assert(uvs_view(variants@) =~= Seq::<UnionVariantM>::empty());
            let r0 = spec_union_variants(s, p0, Seq::<u8>::empty());
            if r0 is Ok {
                assert(Seq::<UnionVariantM>::empty() + r0->Ok_0.0 =~= r0->Ok_0.0);
            }
        }
        loop
            invariant_except_break
                spec_union_variants(s, p0, Seq::empty()) == (match spec_union_variants(
                    s,
                    self.at(),
                    Seq::new(variants@.len(), |k: int| variants@[k].index),
                ) {
                    Err(k) => Err::<(Seq<UnionVariantM>, int), ParseErrorKind>(k),
                    Ok(fp) => Ok::<(Seq<UnionVariantM>, int), ParseErrorKind>(
                        (uvs_view(variants@) + fp.0, fp.1),
                    ),
                }),
            invariant
                self.wf(),
                s == old(self).text(),
                p0 == old(self).at(),
                self.text() == s,
                self.at() >= p0,
                wf_union_tags(variants@),
                wf_variant_defs(variants@),
            ensures
                self.wf(),
                self.text() == s,
                self.at() >= p0,
                wf_union_tags(variants@),
                wf_variant_defs(variants@),
                spec_union_variants(s, p0, Seq::empty()) == (match spec_expect(
                    s,
                    self.at(),
                    "}"@,
                ) {
                    Err(k) => Err::<(Seq<UnionVariantM>, int), ParseErrorKind>(k),
                    Ok(j2) => Ok::<(Seq<UnionVariantM>, int), ParseErrorKind>(
                        (uvs_view(variants@), j2),
                    ),
                }),
            decreases s.len() - self.at(),
        {
            let ghost cur = self.at();
            let ghost seen = Seq::new(variants@.len(), |k: int| variants@[k].index);
            if self.is_next("}") {
                proof {
                    assert(uvs_view(variants@) + Seq::<UnionVariantM>::empty() =~= uvs_view(
                        variants@,
                    ));
                }
                break;
            }
            let index = self.parse_number()?;
            let ghost a1 = self.at();
            if index > 255 {
                return Err(ParseError { kind: ParseErrorKind::IndexTooLarge, at: self.pos });
            }
            let idx = index as u8;
            let dup = union_has_index(&variants, idx);
            proof {
                if dup {
                    let k = choose|k: int|
                        0 <= k < variants@.len() && (#[trigger] variants@[k].index) == idx;
                    assert(seen[k] == idx);
                    assert(seen.contains(idx));
                }
                if seen.contains(idx) {
                    let k = choose|k: int| 0 <= k < seen.len() && seen[k] == idx;
                    assert(variants@[k].index == idx);
                }
            }
            if dup {
                return Err(ParseError { kind: ParseErrorKind::DuplicateIndex, at: self.pos });
            }
            self.expect("-")?;
            let ghost a2 = self.at();
            self.expect(">")?;
            let ghost a3 = self.at();
            let def = match self.parse_definition() {
                Err(e) => {
                    proof {
                        reveal(def_parse_failed);
                    }
                    return Err(e);
                },
                Ok(d) => d,
            };
            let ghost a4 = self.at();
            let ghost vs0 = variants@;
            let ghost dv = def_view(def);
            variants.push(UnionVariant { index: idx, def });
            proof {
                assert(spec_number(s, skip_ws(s, cur)) == Ok::<(u32, int), ParseErrorKind>(
                    (index, a1),
                ));
                assert(spec_expect(s, a1, "-"@) == Ok::<int, ParseErrorKind>(a2));
                assert(spec_expect(s, a2, ">"@) == Ok::<int, ParseErrorKind>(a3));
                assert(def_parsed(s, a3, dv, a4));
                lemma_union_step(s, cur, seen, index, idx, a1, a2, a3, a4, dv);
                assert forall|i: int, j: int| 0 <= i < j < variants@.len() implies variants@[i].index
                    != variants@[j].index by {
                    if j < vs0.len() {
                        assert(vs0[i].index != vs0[j].index);
                    } else {
                        assert(vs0[i].index != idx);
                    }
                }
                lemma_wf_variant_defs_push(vs0, variants@[vs0.len() as int]);
                assert(variants@ =~= vs0.push(variants@[vs0.len() as int]));
                lemma_uvs_view(variants@);
                lemma_uvs_view(vs0);
                assert(uvs_view(variants@) =~= uvs_view(vs0) + seq![
                    UnionVariantM { index: idx, def: dv },
                ]);
                assert(Seq::new(variants@.len(), |k: int| variants@[k].index) =~= seen.push(idx));
                let rr = spec_union_variants(s, a4, seen.push(idx));
                if rr is Ok {
                    assert(uvs_view(vs0) + (seq![UnionVariantM { index: idx, def: dv }]
                        + rr->Ok_0.0) =~= uvs_view(variants@) + rr->Ok_0.0);
                }
            }
        }
        self.expect("}")?;
        Ok(variants)
    }

    /// Parses an enum definition after its keyword: the name and the braced
    /// member list.
    fn parse_enum_def(&mut self, readonly: bool) -> (r: Result<Definition, ParseError>)
        requires
            old(self).wf(),
        ensures
            final(self).wf(),
            final(self).text() == old(self).text(),
            r matches Ok(d) ==> wf_definition(d) && final(self).at() > old(self).at(),
            match spec_enum_def(old(self).text(), old(self).at(), readonly) {
                Ok(p) => r matches Ok(d) && def_view(d) == p.0 && final(self).at() == p.1,
                Err(k) => r matches Err(e) && e.kind == k,
            },
        decreases old(self).text().len() - old(self).at(), 1nat,
    {
        let name = self.parse_identifier()?;
        self.expect("{")?;
        let members = self.parse_enum_members()?;
        Ok(Definition { name, opcode: None, readonly, kind: DefKind::Enum(members) })
    }

    /// Parses a struct definition after its keyword: the name and the braced
    /// field list.
    fn parse_struct_def(&mut self, opcode: Option<u32>, readonly: bool) -> (r: Result<
        Definition,
        ParseError,
    >)
        requires
            old(self).wf(),
        ensures
            final(self).wf(),
            final(self).text() == old(self).text(),
            r matches Ok(d) ==> wf_definition(d) && final(self).at() > old(self).at(),
            match spec_struct_def(old(self).text(), old(self).at(), opcode, readonly) {
                Ok(p) => r matches Ok(d) && def_view(d) == p.0 && final(self).at() == p.1,
                Err(k) => r matches Err(e) && e.kind == k,
            },
        decreases old(self).text().len() - old(self).at(), 1nat,
    {
        let name = self.parse_identifier()?;
        self.expect("{")?;
        let fields = self.parse_struct_fields()?;
        Ok(Definition { name, opcode, readonly, kind: DefKind::Struct(fields) })
    }

    /// Parses a message definition after its keyword: the name and the
    /// braced field list.
    fn parse_message_def(&mut self, opcode: Option<u32>, readonly: bool) -> (r: Result<
        Definition,
        ParseError,
    >)
        requires
            old(self).wf(),
        ensures
            final(self).wf(),
            final(self).text() == old(self).text(),
            r matches Ok(d) ==> wf_definition(d) && final(self).at() > old(self).at(),
            match spec_message_def(old(self).text(), old(self).at(), opcode, readonly) {
                Ok(p) => r matches Ok(d) && def_view(d) == p.0 && final(self).at() == p.1,
                Err(k) => r matches Err(e) && e.kind == k,
            },
        decreases old(self).text().len() - old(self).at(), 1nat,
    {
        let name = self.parse_identifier()?;
        self.expect("{")?;
        let fields = self.parse_message_fields()?;
        Ok(Definition { name, opcode, readonly, kind: DefKind::Message(fields) })
    }

    /// Parses a union definition after its keyword: the name and the braced
    /// variant list.
    fn parse_union_def(&mut self, opcode: Option<u32>, readonly: bool) -> (r: Result<
        Definition,
        ParseError,
    >)
        requires
            old(self).wf(),
        ensures
            final(self).wf(),
            final(self).text() == old(self).text(),
            r matches Ok(d) ==> wf_definition(d) && final(self).at() > old(self).at(),
            match spec_union_def(old(self).text(), old(self).at(), opcode, readonly) {
                Ok(p) => r matches Ok(d) && def_view(d) == p.0 && final(self).at() == p.1,
                Err(k) => r matches Err(e) && e.kind == k,
            },
        decreases old(self).text().len() - old(self).at(), 1nat,
    {
        let name = self.parse_identifier()?;
        self.expect("{")?;
        let variants = self.parse_union_variants()?;
        Ok(Definition { name, opcode, readonly, kind: DefKind::Union(variants) })
    }

    /// Parses the head of a definition: the optional opcode attribute, the
    /// optional `readonly` marker, and the keyword token that names the kind.
    fn parse_def_header(&mut self) -> (r: Result<(Option<u32>, bool, String), ParseError>)
        requires
            old(self).wf(),
        ensures
            final(self).wf(),
            final(self).text() == old(self).text(),
            final(self).at() >= old(self).at(),
            match r {
                Ok(h) => def_head_parsed(
                    old(self).text(),
                    old(self).at(),
                    h.0,
                    h.1,
                    h.2@,
                    final(self).at(),
                ),
                Err(e) => def_parse_failed(old(self).text(), old(self).at(), e.kind),
            },
    {
        proof {
            reveal(def_head_parsed);
            reveal(def_parse_failed);
        }
        let ghost s = self.src@;
        let ghost p0 = self.at();
        let opcode = self.parse_opcode()?;
        proof {
            lemma_skip_ws(s, self.at());
            if skip_ws(s, self.at()) < s.len() {
                lemma_token_end(s, skip_ws(s, self.at()));
            }
        }
        let mut tok = match self.next_token() {
            None => {
                return Err(ParseError { kind: ParseErrorKind::MissingToken, at: self.pos });
            },
            Some(t) => t,
        };
        let mut readonly = false;
        if str_eq(tok.as_str(), "readonly") {
            readonly = true;
            proof {
                lemma_skip_ws(s, self.at());
                if skip_ws(s, self.at()) < s.len() {
                    lemma_token_end(s, skip_ws(s, self.at()));
                }
            }
            tok = match self.next_token() {
                None => {
                    return Err(ParseError { kind: ParseErrorKind::MissingToken, at: self.pos });
                },
                Some(t) => t,
            };
        }
        Ok((opcode, readonly, tok))
    }

    /// Parses the body of a definition after its head, dispatched on the
    /// keyword token. The ghost arguments carry where the whole definition
    /// began, so that the outcome can be stated against it.
    #[verifier::rlimit(100)]
    #[verifier::spinoff_prover]
    fn parse_def_dispatch(
        &mut self,
        opcode: Option<u32>,
        readonly: bool,
        tok: String,
        Ghost(s0): Ghost<Seq<char>>,
        Ghost(i0): Ghost<int>,
    ) -> (r: Result<Definition, ParseError>)
        requires
            old(self).wf(),
            s0 == old(self).text(),
            i0 <= old(self).at(),
            def_head_parsed(s0, i0, opcode, readonly, tok@, old(self).at()),
        ensures
            final(self).wf(),
            final(self).text() == old(self).text(),
            r matches Ok(d) ==> wf_definition(d) && final(self).at() > i0 && def_parsed(
                s0,
                i0,
                def_view(d),
                final(self).at(),
            ),
            r matches Err(e) ==> def_parse_failed(s0, i0, e.kind),
        decreases old(self).text().len() - old(self).at(), 2nat,
    {
        proof {
            reveal(def_head_parsed);
            reveal(def_parsed);
            reveal(def_parse_failed);
        }
        if str_eq(tok.as_str(), "enum") {
            if opcode.is_some() {
                return Err(ParseError { kind: ParseErrorKind::EnumWithOpcode, at: self.pos });
            }
            self.parse_enum_def(readonly)
        } else if str_eq(tok.as_str(), "struct") {
            self.parse_struct_def(opcode, readonly)
        } else if str_eq(tok.as_str(), "message") {
            self.parse_message_def(opcode, readonly)
        } else if str_eq(tok.as_str(), "union") {
            self.parse_union_def(opcode, readonly)
        } else {
            Err(ParseError { kind: ParseErrorKind::ExpectedDefinition, at: self.pos })
        }
    }

    /// Parses one definition: an optional opcode attribute, an optional
    /// `readonly` marker, then an enum, struct, message or union body. The
    /// schema rules are enforced here: an enum may not carry an opcode, enum
    /// discriminants and field indices must be unique, message and union
    /// indices must fit 8 bits, and a message index may not be 0.
    #[verifier::rlimit(100)]
    #[verifier::spinoff_prover]
    pub fn parse_definition(&mut self) -> (r: Result<Definition, ParseError>)
        requires
            old(self).wf(),
        ensures
            final(self).wf(),
            final(self).text() == old(self).text(),
            r matches Ok(d) ==> wf_definition(d) && final(self).at() > old(self).at()
                && def_parsed(old(self).text(), old(self).at(), def_view(d), final(self).at()),
            r matches Err(e) ==> def_parse_failed(old(self).text(), old(self).at(), e.kind),
        decreases old(self).text().len() - old(self).at(), 3nat,
    {
        let ghost s = self.src@;
        let ghost p0 = self.at();
        proof {
            reveal(def_parse_failed);
        }
        let header = self.parse_def_header()?;
        let (opcode, readonly, tok) = header;
        self.parse_def_dispatch(opcode, readonly, tok, Ghost(s), Ghost(p0))
    }


    /// Parses a whole schema text into its items: import directives and
    /// definitions, in order. Imports are reported, not resolved; the caller
    /// splices the imported file's items in place of the directive.
    #[verifier::rlimit(100)]
    #[verifier::spinoff_prover]
    pub fn parse_file(&mut self) -> (r: Result<Vec<SchemaItem>, ParseError>)
        requires
            old(self).wf(),
        ensures
            final(self).wf(),
            final(self).text() == old(self).text(),
            r matches Ok(items) ==> final(self).at() == final(self).text().len() && (forall|k: int|
                0 <= k < items@.len() ==> wf_item(#[trigger] items@[k])) && file_parsed(
                old(self).text(),
                old(self).at(),
                items_view(items@),
                final(self).at(),
            ),
            r matches Err(e) ==> file_parse_failed(old(self).text(), old(self).at(), e.kind),
    {
        let ghost s = self.src@;
        let ghost p0 = self.at();
        let mut items: Vec<SchemaItem> = Vec::new();
        proof {
            assert(items_view(items@) =~= Seq::<SchemaItemM>::empty());
            lemma_ft_init(s, p0);
        }
        loop
            invariant_except_break
                file_tail_eq(s, p0, items_view(items@), self.at()),
            invariant
                self.wf(),
                s == old(self).text(),
                p0 == old(self).at(),
                self.text() == s,
                forall|k: int| 0 <= k < items@.len() ==> wf_item(#[trigger] items@[k]),
            ensures
                self.wf(),
                self.text() == s,
                self.at() == s.len(),
                forall|k: int| 0 <= k < items@.len() ==> wf_item(#[trigger] items@[k]),
                file_parsed(s, p0, items_view(items@), self.at()),
            decreases s.len() - self.at(),
        {
            let ghost a0 = self.at();
            self.skip_whitespace();
            proof {
                lemma_skip_ws(s, self.at());
                lemma_skip_ws_idem(s, a0);
            }
            let len = self.src.unicode_len();
            if self.pos >= len {
                proof {
                    lemma_ft_done(s, p0, items_view(items@), a0);
                }
                break;
            }
            if self.is_next("import") {
                let ghost acc = items_view(items@);
                match self.expect("import") {
                    Err(e) => {
                        proof {
                            lemma_ft_import_kw_err(s, p0, acc, a0, e.kind);
                        }
                        return Err(e);
                    },
                    Ok(u) => {
                    },
                }
                let ghost e1 = self.at();
                let path = match self.parse_string_literal() {
                    Err(e) => {
                        proof {
                            lemma_ft_lit_err(s, p0, acc, a0, e1, e.kind);
                        }
                        return Err(e);
                    },
                    Ok(x) => x,
                };
                let ghost pv = path@;
                let ghost a1 = self.at();
                let ghost is0 = items@;
                items.push(SchemaItem::ImportItem(path));
                proof {
                    assert(is0 =~= items@.drop_last());
                    lemma_items_view(items@);
                    lemma_items_view(is0);
                    assert(items_view(items@) =~= acc + seq![SchemaItemM::ImportItem(pv)]);
                    lemma_ft_import(s, p0, acc, a0, pv, e1, a1);
                }
            } else {
                let ghost acc = items_view(items@);
                let d = match self.parse_definition() {
                    Err(e) => {
                        proof {
                            lemma_ft_def_err(s, p0, acc, a0, e.kind);
                        }
                        return Err(e);
                    },
                    Ok(x) => x,
                };
                let ghost dv = def_view(d);
                let ghost a1 = self.at();
                let ghost is0 = items@;
                items.push(SchemaItem::DefItem(d));
                proof {
                    assert(is0 =~= items@.drop_last());
                    lemma_items_view(items@);
                    lemma_items_view(is0);
                    assert(items_view(items@) =~= acc + seq![SchemaItemM::DefItem(dv)]);
                    lemma_ft_def(s, p0, acc, a0, dv, a1);
                }
            }
        }
        Ok(items)
    }
}

/// A schema item is well formed when any definition it holds is.
pub open spec fn wf_item(it: SchemaItem) -> bool {
    match it {
        SchemaItem::ImportItem(_) => true,
        SchemaItem::DefItem(d) => wf_definition(d),
    }
}

/// Whether some member of `ms` already carries the discriminant `x`.
fn enum_has_value(ms: &Vec<EnumMember>, x: u32) -> (r: bool)
    ensures
        r == exists|k: int| 0 <= k < ms@.len() && (#[trigger] ms@[k].value) == x,
{
    let mut i: usize = 0;
    while i < ms.len()
        invariant
            0 <= i <= ms@.len(),
            forall|k: int| 0 <= k < i ==> (#[trigger] ms@[k].value) != x,
        decreases ms@.len() - i,
    {
        if ms[i].value == x {
            return true;
        }
        i = i + 1;
    }
    false
}

/// Whether some field of `fs` already carries the index `x`.
fn msg_has_index(fs: &Vec<MessageField>, x: u8) -> (r: bool)
    ensures
        r == exists|k: int| 0 <= k < fs@.len() && (#[trigger] fs@[k].index) == x,
{
    let mut i: usize = 0;
    while i < fs.len()
        invariant
            0 <= i <= fs@.len(),
            forall|k: int| 0 <= k < i ==> (#[trigger] fs@[k].index) != x,
        decreases fs@.len() - i,
    {
        if fs[i].index == x {
            return true;
        }
        i = i + 1;
    }
    false
}

/// Whether some variant of `vs` already carries the tag `x`.
fn union_has_index(vs: &Vec<UnionVariant>, x: u8) -> (r: bool)
    ensures
        r == exists|k: int| 0 <= k < vs@.len() && (#[trigger] vs@[k].index) == x,
{
    let mut i: usize = 0;
    while i < vs.len()
        invariant
            0 <= i <= vs@.len(),
            forall|k: int| 0 <= k < i ==> (#[trigger] vs@[k].index) != x,
        decreases vs@.len() - i,
    {
        if vs[i].index == x {
            return true;
        }
        i = i + 1;
    }
    false
}

/// The two strings hold the same characters.
pub(crate) fn str_eq(a: &str, b: &str) -> (r: bool)
    ensures
        r == (a@ == b@),
{
    let n = a.unicode_len();
    let m = b.unicode_len();
    if n != m {
        return false;
    }
    let mut k: usize = 0;
    loop
        invariant
            n == a@.len(),
            n == b@.len(),
            0 <= k <= n,
            forall|i: int| 0 <= i < k ==> a@[i] == b@[i],
        ensures
            (k == n && forall|i: int| 0 <= i < n ==> a@[i] == b@[i]) || (k < n && a@[k as int]
                != b@[k as int]),
        decreases n - k,
    {
        if k >= n {
            break;
        }
        if a.get_char(k) != b.get_char(k) {
            break;
        }
        k = k + 1;
    }
    if k == n {
        proof {
            assert(a@ =~= b@);
        }
        true
    } else {
        false
    }
}

/// A token is an identifier when it starts with a letter or an underscore.
pub open spec fn spec_is_ident(t: Seq<char>) -> bool {
    t.len() > 0 && is_ident_start(t[0])
}

/// A decimal digit.
pub open spec fn is_dec_digit(c: char) -> bool {
    '0' as u32 <= c as u32 <= '9' as u32
}

/// A hexadecimal digit, either case.
pub open spec fn is_hex_digit(c: char) -> bool {
    ||| is_dec_digit(c)
    ||| 'a' as u32 <= c as u32 <= 'f' as u32
    ||| 'A' as u32 <= c as u32 <= 'F' as u32
}

/// The numeric value of one digit, decimal or hexadecimal.
pub open spec fn digit_val(c: char) -> int {
    if is_dec_digit(c) {
        c as u32 - 48
    } else if 'a' as u32 <= c as u32 <= 'f' as u32 {
        c as u32 - 87
    } else {
        c as u32 - 55
    }
}

/// Every character of `t` is a digit of the given radix, and there is at
/// least one.
pub open spec fn digits_ok(t: Seq<char>, radix: int) -> bool {
    &&& t.len() > 0
    &&& forall|k: int|
        0 <= k < t.len() ==> if radix == 16 {
            is_hex_digit(#[trigger] t[k])
        } else {
            is_dec_digit(t[k])
        }
}

/// The unbounded numeric value of the digit string `t` in the given radix.
pub open spec fn digits_val(t: Seq<char>, radix: int) -> int
    decreases t.len(),
{
    if t.len() == 0 {
        0
    } else {
        digits_val(t.drop_last(), radix) * radix + digit_val(t.last())
    }
}

/// A number token is valid when its digits are valid for its radix — with
/// `0x` the rest is hexadecimal, otherwise all of it is decimal — and its
/// value fits 32 bits.
pub open spec fn spec_number_ok(t: Seq<char>) -> bool {
    if t.len() >= 2 && t[0] == '0' && t[1] == 'x' {
        digits_ok(t.skip(2), 16) && digits_val(t.skip(2), 16) <= u32::MAX
    } else {
        digits_ok(t, 10) && digits_val(t, 10) <= u32::MAX
    }
}

/// The value of a valid number token.
pub open spec fn spec_number_val(t: Seq<char>) -> int {
    if t.len() >= 2 && t[0] == '0' && t[1] == 'x' {
        digits_val(t.skip(2), 16)
    } else {
        digits_val(t, 10)
    }
}

/// The text `t` stands letter for letter at position `i` of `s`.
pub open spec fn has_prefix(s: Seq<char>, i: int, t: Seq<char>) -> bool {
    0 <= i && i + t.len() <= s.len() && s.subrange(i, i + t.len()) == t
}

/// The outcome of demanding that the next token be exactly `w`.
pub open spec fn spec_expect(s: Seq<char>, i: int, w: Seq<char>) -> Result<int, ParseErrorKind> {
    match next_tok(s, i) {
        None => Err(ParseErrorKind::MissingToken),
        Some(t) => if t.0 == w {
            Ok(t.1)
        } else {
            Err(ParseErrorKind::UnexpectedToken)
        },
    }
}

/// The outcome of demanding that the next token be an identifier.
pub open spec fn spec_ident(s: Seq<char>, i: int) -> Result<(Seq<char>, int), ParseErrorKind> {
    match next_tok(s, i) {
        None => Err(ParseErrorKind::MissingToken),
        Some(t) => if spec_is_ident(t.0) {
            Ok((t.0, t.1))
        } else {
            Err(ParseErrorKind::UnexpectedToken)
        },
    }
}

/// The outcome of demanding that the next token be a 32-bit number.
pub open spec fn spec_number(s: Seq<char>, i: int) -> Result<(u32, int), ParseErrorKind> {
    match next_tok(s, i) {
        None => Err(ParseErrorKind::MissingToken),
        Some(t) => if spec_number_ok(t.0) {
            Ok((spec_number_val(t.0) as u32, t.1))
        } else {
            Err(ParseErrorKind::InvalidNumber)
        },
    }
}

/// The outcome of reading a quoted string literal.
pub open spec fn spec_str_lit(s: Seq<char>, i: int) -> Result<(Seq<char>, int), ParseErrorKind> {
    let j = skip_ws(s, i);
    if j >= s.len() || (s[j] != '\'' && s[j] != '"') {
        Err(ParseErrorKind::ExpectedStringLiteral)
    } else {
        let e = quote_end(s, j + 1, s[j]);
        if e >= s.len() {
            Err(ParseErrorKind::UnterminatedString)
        } else {
            Ok((s.subrange(j + 1, e), e + 1))
        }
    }
}

/// The exact outcome of parsing a type expression at position `i`: the type
/// it derives and the position just past it, or the first error met. The
/// inner position guards only order the recursion; parsing always moves
/// forward, so they never fire.
pub open spec fn spec_type(s: Seq<char>, i: int) -> Result<(TypeExprM, int), ParseErrorKind>
    decreases s.len() - i, 1nat,
{
    match next_tok(s, i) {
        None => Err(ParseErrorKind::MissingToken),
        Some(tp) => {
            let t = tp.0;
            let j = tp.1;
            if !(i < j <= s.len()) {
                Err(ParseErrorKind::MissingToken)
            } else if t == "map"@ {
                match spec_expect(s, j, "["@) {
                    Err(k) => Err(k),
                    Ok(j1) => if !(i < j1 <= s.len()) {
                        Err(ParseErrorKind::MissingToken)
                    } else {
                        match spec_type(s, j1) {
                            Err(k) => Err(k),
                            Ok(kp) => match spec_expect(s, kp.1, ","@) {
                                Err(k) => Err(k),
                                Ok(j2) => if !(i < j2 <= s.len()) {
                                    Err(ParseErrorKind::MissingToken)
                                } else {
                                    match spec_type(s, j2) {
                                        Err(k) => Err(k),
                                        Ok(vp) => match spec_expect(s, vp.1, "]"@) {
                                            Err(k) => Err(k),
                                            Ok(j3) => if !(i < j3 <= s.len()) {
                                                Err(ParseErrorKind::MissingToken)
                                            } else {
                                                spec_suffixes(
                                                    s,
                                                    j3,
                                                    TypeExprM::Mapping(
                                                        Box::new(kp.0),
                                                        Box::new(vp.0),
                                                    ),
                                                )
                                            },
                                        },
                                    }
                                },
                            },
                        }
                    },
                }
            } else if t == "array"@ {
                match spec_expect(s, j, "["@) {
                    Err(k) => Err(k),
                    Ok(j1) => if !(i < j1 <= s.len()) {
                        Err(ParseErrorKind::MissingToken)
                    } else {
                        match spec_type(s, j1) {
                            Err(k) => Err(k),
                            Ok(ep) => match spec_expect(s, ep.1, "]"@) {
                                Err(k) => Err(k),
                                Ok(j2) => if !(i < j2 <= s.len()) {
                                    Err(ParseErrorKind::MissingToken)
                                } else {
                                    spec_suffixes(s, j2, TypeExprM::Array(Box::new(ep.0)))
                                },
                            },
                        }
                    },
                }
            } else if t == "string"@ {
                spec_suffixes(s, j, TypeExprM::Text)
            } else if t == "bool"@ {
                spec_suffixes(s, j, TypeExprM::Boolean)
            } else if t == "byte"@ || t == "uint8"@ {
                spec_suffixes(s, j, TypeExprM::UInt8)
            } else if t == "int8"@ {
                spec_suffixes(s, j, TypeExprM::Int8)
            } else if t == "uint16"@ {
                spec_suffixes(s, j, TypeExprM::UInt16)
            } else if t == "int16"@ {
                spec_suffixes(s, j, TypeExprM::Int16)
            } else if t == "uint32"@ {
                spec_suffixes(s, j, TypeExprM::UInt32)
            } else if t == "int32"@ {
                spec_suffixes(s, j, TypeExprM::Int32)
            } else if t == "uint64"@ {
                spec_suffixes(s, j, TypeExprM::UInt64)
            } else if t == "int64"@ {
                spec_suffixes(s, j, TypeExprM::Int64)
            } else if t == "float32"@ {
                spec_suffixes(s, j, TypeExprM::Float32)
            } else if t == "float64"@ {
                spec_suffixes(s, j, TypeExprM::Float64)
            } else if t == "date"@ {
                spec_suffixes(s, j, TypeExprM::DateType)
            } else if t == "guid"@ {
                spec_suffixes(s, j, TypeExprM::GuidType)
            } else if spec_is_ident(t) {
                spec_suffixes(s, j, TypeExprM::Named(t))
            } else {
                Err(ParseErrorKind::UnexpectedToken)
            }
        },
    }
}

/// Absorbs `[]` suffixes after a parsed base type: each one wraps the type in
/// one more array.
pub open spec fn spec_suffixes(s: Seq<char>, i: int, acc: TypeExprM) -> Result<
    (TypeExprM, int),
    ParseErrorKind,
>
    decreases s.len() - i, 0nat,
{
    let j = skip_ws(s, i);
    if !has_prefix(s, j, "["@) {
        Ok((acc, j))
    } else {
        match spec_expect(s, j, "["@) {
            Err(k) => Err(k),
            Ok(j1) => match spec_expect(s, j1, "]"@) {
                Err(k) => Err(k),
                Ok(j2) => if i < j2 <= s.len() {
                    spec_suffixes(s, j2, TypeExprM::Array(Box::new(acc)))
                } else {
                    Err(ParseErrorKind::MissingToken)
                },
            },
        }
    }
}

/// The exact outcome of parsing an optional `[opcode(...)]` attribute.
pub open spec fn spec_opcode(s: Seq<char>, i: int) -> Result<(Option<u32>, int), ParseErrorKind> {
    let j = skip_ws(s, i);
    if !has_prefix(s, j, "["@) {
        Ok((None, j))
    } else {
        match spec_expect(s, j, "["@) {
            Err(k) => Err(k),
            Ok(j1) => match spec_expect(s, j1, "opcode"@) {
                Err(k) => Err(k),
                Ok(j2) => match spec_expect(s, j2, "("@) {
                    Err(k) => Err(k),
                    Ok(j3) => {
                        let p = skip_ws(s, j3);
                        match (if p < s.len() && is_dec_digit(s[p]) {
                            spec_number(s, p)
                        } else {
                            match spec_str_lit(s, p) {
                                Err(k) => Err(k),
                                Ok(lp) => {
                                    let b = encode_utf8(lp.0);
                                    if b.len() != 4 {
                                        Err(ParseErrorKind::OpcodeNotFourBytes)
                                    } else {
                                        Ok((spec_u32_from_le_bytes(b), lp.1))
                                    }
                                },
                            }
                        }) {
                            Err(k) => Err(k),
                            Ok(vp) => match spec_expect(s, vp.1, ")"@) {
                                Err(k) => Err(k),
                                Ok(j4) => match spec_expect(s, j4, "]"@) {
                                    Err(k) => Err(k),
                                    Ok(j5) => Ok((Some(vp.0), j5)),
                                },
                            },
                        }
                    },
                },
            },
        }
    }
}

/// The exact outcome of parsing an optional `[deprecated]` or
/// `[deprecated("note")]` attribute.
pub open spec fn spec_deprecated(s: Seq<char>, i: int) -> Result<
    (Option<Option<Seq<char>>>, int),
    ParseErrorKind,
> {
    let j = skip_ws(s, i);
    if !has_prefix(s, j, "["@) {
        Ok((None, j))
    } else {
        match spec_expect(s, j, "["@) {
            Err(k) => Err(k),
            Ok(j1) => match spec_expect(s, j1, "deprecated"@) {
                Err(k) => Err(k),
                Ok(j2) => {
                    let j3 = skip_ws(s, j2);
                    if has_prefix(s, j3, "]"@) {
                        match spec_expect(s, j3, "]"@) {
                            Err(k) => Err(k),
                            Ok(j4) => Ok((Some(None), j4)),
                        }
                    } else {
                        match spec_expect(s, j3, "("@) {
                            Err(k) => Err(k),
                            Ok(j4) => match spec_str_lit(s, j4) {
                                Err(k) => Err(k),
                                Ok(lp) => match spec_expect(s, lp.1, ")"@) {
                                    Err(k) => Err(k),
                                    Ok(j5) => match spec_expect(s, j5, "]"@) {
                                        Err(k) => Err(k),
                                        Ok(j6) => Ok((Some(Some(lp.0)), j6)),
                                    },
                                },
                            },
                        }
                    }
                },
            },
        }
    }
}

/// Parses the members of an enum body up to and including the closing brace.
/// `seen` holds the discriminants already declared; repeating one is fatal.
pub open spec fn spec_enum_members(s: Seq<char>, i: int, seen: Seq<u32>) -> Result<
    (Seq<EnumMemberM>, int),
    ParseErrorKind,
>
    decreases s.len() - i, 0nat,
{
    let j = skip_ws(s, i);
    if has_prefix(s, j, "}"@) {
        match spec_expect(s, j, "}"@) {
            Err(k) => Err(k),
            Ok(j2) => Ok((Seq::empty(), j2)),
        }
    } else {
        match spec_deprecated(s, j) {
            Err(k) => Err(k),
            Ok(dp) => match spec_ident(s, dp.1) {
                Err(k) => Err(k),
                Ok(np) => match spec_expect(s, np.1, "="@) {
                    Err(k) => Err(k),
                    Ok(j1) => match spec_number(s, j1) {
                        Err(k) => Err(k),
                        Ok(vp) => match spec_expect(s, vp.1, ";"@) {
                            Err(k) => Err(k),
                            Ok(j2) => if seen.contains(vp.0) {
                                Err(ParseErrorKind::DuplicateEnumValue)
                            } else if i < j2 <= s.len() {
                                match spec_enum_members(s, j2, seen.push(vp.0)) {
                                    Err(k) => Err(k),
                                    Ok(mp) => Ok(
                                        (
                                            seq![
                                                EnumMemberM {
                                                    name: np.0,
                                                    value: vp.0,
                                                    deprecated: dp.0,
                                                },
                                            ] + mp.0,
                                            mp.1,
                                        ),
                                    ),
                                }
                            } else {
                                Err(ParseErrorKind::MissingToken)
                            },
                        },
                    },
                },
            },
        }
    }
}

/// Parses the fields of a struct body up to and including the closing brace.
pub open spec fn spec_struct_fields(s: Seq<char>, i: int) -> Result<
    (Seq<StructFieldM>, int),
    ParseErrorKind,
>
    decreases s.len() - i, 2nat,
{
    let j = skip_ws(s, i);
    if has_prefix(s, j, "}"@) {
        match spec_expect(s, j, "}"@) {
            Err(k) => Err(k),
            Ok(j2) => Ok((Seq::empty(), j2)),
        }
    } else {
        match (if i <= j <= s.len() {
            spec_type(s, j)
        } else {
            Err(ParseErrorKind::MissingToken)
        }) {
            Err(k) => Err(k),
            Ok(tp) => match spec_ident(s, tp.1) {
                Err(k) => Err(k),
                Ok(np) => match spec_expect(s, np.1, ";"@) {
                    Err(k) => Err(k),
                    Ok(j2) => if i < j2 <= s.len() {
                        match spec_struct_fields(s, j2) {
                            Err(k) => Err(k),
                            Ok(fp) => Ok(
                                (seq![StructFieldM { ty: tp.0, name: np.0 }] + fp.0, fp.1),
                            ),
                        }
                    } else {
                        Err(ParseErrorKind::MissingToken)
                    },
                },
            },
        }
    }
}

/// Parses the fields of a message body up to and including the closing
/// brace. An index above 255, the reserved index 0, and a repeated index are
/// fatal.
pub open spec fn spec_message_fields(s: Seq<char>, i: int, seen: Seq<u8>) -> Result<
    (Seq<MessageFieldM>, int),
    ParseErrorKind,
>
    decreases s.len() - i, 2nat,
{
    let j = skip_ws(s, i);
    if has_prefix(s, j, "}"@) {
        match spec_expect(s, j, "}"@) {
            Err(k) => Err(k),
            Ok(j2) => Ok((Seq::empty(), j2)),
        }
    } else {
        match spec_deprecated(s, j) {
            Err(k) => Err(k),
            Ok(dp) => match spec_number(s, dp.1) {
                Err(k) => Err(k),
                Ok(vp) => if vp.0 > 255 {
                    Err(ParseErrorKind::IndexTooLarge)
                } else if vp.0 == 0 {
                    Err(ParseErrorKind::IndexZero)
                } else if seen.contains(vp.0 as u8) {
                    Err(ParseErrorKind::DuplicateIndex)
                } else {
                    match spec_expect(s, vp.1, "-"@) {
                        Err(k) => Err(k),
                        Ok(j1) => match spec_expect(s, j1, ">"@) {
                            Err(k) => Err(k),
                            Ok(j2) => match (if i <= j2 <= s.len() {
                                spec_type(s, j2)
                            } else {
                                Err(ParseErrorKind::MissingToken)
                            }) {
                                Err(k) => Err(k),
                                Ok(tp) => match spec_ident(s, tp.1) {
                                    Err(k) => Err(k),
                                    Ok(np) => match spec_expect(s, np.1, ";"@) {
                                        Err(k) => Err(k),
                                        Ok(j3) => if i < j3 <= s.len() {
                                            match spec_message_fields(
                                                s,
                                                j3,
                                                seen.push(vp.0 as u8),
                                            ) {
                                                Err(k) => Err(k),
                                                Ok(fp) => Ok(
                                                    (
                                                        seq![
                                                            MessageFieldM {
                                                                index: vp.0 as u8,
                                                                ty: tp.0,
                                                                name: np.0,
                                                                deprecated: dp.0,
                                                            },
                                                        ] + fp.0,
                                                        fp.1,
                                                    ),
                                                ),
                                            }
                                        } else {
                                            Err(ParseErrorKind::MissingToken)
                                        },
                                    },
                                },
                            },
                        },
                    }
                },
            },
        }
    }
}

/// Parses the variants of a union body up to and including the closing
/// brace. An index above 255 and a repeated index are fatal; index 0 is
/// legal here.
pub open spec fn spec_union_variants(s: Seq<char>, i: int, seen: Seq<u8>) -> Result<
    (Seq<UnionVariantM>, int),
    ParseErrorKind,
>
    decreases s.len() - i, 2nat,
{
    let j = skip_ws(s, i);
    if has_prefix(s, j, "}"@) {
        match spec_expect(s, j, "}"@) {
            Err(k) => Err(k),
            Ok(j2) => Ok((Seq::empty(), j2)),
        }
    } else {
        match spec_number(s, j) {
            Err(k) => Err(k),
            Ok(vp) => if vp.0 > 255 {
                Err(ParseErrorKind::IndexTooLarge)
            } else if seen.contains(vp.0 as u8) {
                Err(ParseErrorKind::DuplicateIndex)
            } else {
                match spec_expect(s, vp.1, "-"@) {
                    Err(k) => Err(k),
                    Ok(j1) => match spec_expect(s, j1, ">"@) {
                        Err(k) => Err(k),
                        Ok(j2) => match (if i < j2 <= s.len() {
                            spec_definition(s, j2)
                        } else {
                            Err(ParseErrorKind::MissingToken)
                        }) {
                            Err(k) => Err(k),
                            Ok(dp) => if i < dp.1 <= s.len() {
                                match spec_union_variants(s, dp.1, seen.push(vp.0 as u8)) {
                                    Err(k) => Err(k),
                                    Ok(fp) => Ok(
                                        (
                                            seq![
                                                UnionVariantM { index: vp.0 as u8, def: dp.0 },
                                            ] + fp.0,
                                            fp.1,
                                        ),
                                    ),
                                }
                            } else {
                                Err(ParseErrorKind::MissingToken)
                            },
                        },
                    },
                }
            },
        }
    }
}

/// The exact outcome of parsing one definition at position `i`: an optional
/// opcode attribute, an optional `readonly` marker, then an enum, struct,
/// message or union body, with every schema rule enforced.
pub open spec fn spec_definition(s: Seq<char>, i: int) -> Result<
    (DefinitionM, int),
    ParseErrorKind,
>
    decreases s.len() - i, 5nat,
{
    match spec_opcode(s, i) {
        Err(k) => Err(k),
        Ok(op) => match next_tok(s, op.1) {
            None => Err(ParseErrorKind::MissingToken),
            Some(t1) => if t1.0 == "readonly"@ {
                match next_tok(s, t1.1) {
                    None => Err(ParseErrorKind::MissingToken),
                    Some(t2) => if i <= t2.1 <= s.len() {
                        spec_def_body(s, op.0, true, t2.0, t2.1)
                    } else {
                        Err(ParseErrorKind::MissingToken)
                    },
                }
            } else {
                if i <= t1.1 <= s.len() {
                    spec_def_body(s, op.0, false, t1.0, t1.1)
                } else {
                    Err(ParseErrorKind::MissingToken)
                }
            },
        },
    }
}

/// The body of an enum definition after its keyword: name, braces, members.
pub open spec fn spec_enum_def(s: Seq<char>, i: int, ro: bool) -> Result<
    (DefinitionM, int),
    ParseErrorKind,
>
    decreases s.len() - i, 3nat,
{
    match spec_ident(s, i) {
        Err(k) => Err(k),
        Ok(np) => match spec_expect(s, np.1, "{"@) {
            Err(k) => Err(k),
            Ok(j1) => match (if i <= j1 <= s.len() {
                spec_enum_members(s, j1, Seq::empty())
            } else {
                Err(ParseErrorKind::MissingToken)
            }) {
                Err(k) => Err(k),
                Ok(mp) => Ok(
                    (
                        DefinitionM {
                            name: np.0,
                            opcode: None,
                            readonly: ro,
                            kind: DefKindM::Enum(mp.0),
                        },
                        mp.1,
                    ),
                ),
            },
        },
    }
}

/// The body of a struct definition after its keyword: name, braces, fields.
pub open spec fn spec_struct_def(s: Seq<char>, i: int, op: Option<u32>, ro: bool) -> Result<
    (DefinitionM, int),
    ParseErrorKind,
>
    decreases s.len() - i, 3nat,
{
    match spec_ident(s, i) {
        Err(k) => Err(k),
        Ok(np) => match spec_expect(s, np.1, "{"@) {
            Err(k) => Err(k),
            Ok(j1) => match (if i <= j1 <= s.len() {
                spec_struct_fields(s, j1)
            } else {
                Err(ParseErrorKind::MissingToken)
            }) {
                Err(k) => Err(k),
                Ok(fp) => Ok(
                    (
                        DefinitionM {
                            name: np.0,
                            opcode: op,
                            readonly: ro,
                            kind: DefKindM::Struct(fp.0),
                        },
                        fp.1,
                    ),
                ),
            },
        },
    }
}

/// The body of a message definition after its keyword: name, braces, fields.
pub open spec fn spec_message_def(s: Seq<char>, i: int, op: Option<u32>, ro: bool) -> Result<
    (DefinitionM, int),
    ParseErrorKind,
>
    decreases s.len() - i, 3nat,
{
    match spec_ident(s, i) {
        Err(k) => Err(k),
        Ok(np) => match spec_expect(s, np.1, "{"@) {
            Err(k) => Err(k),
            Ok(j1) => match (if i <= j1 <= s.len() {
                spec_message_fields(s, j1, Seq::empty())
            } else {
                Err(ParseErrorKind::MissingToken)
            }) {
                Err(k) => Err(k),
                Ok(fp) => Ok(
                    (
                        DefinitionM {
                            name: np.0,
                            opcode: op,
                            readonly: ro,
                            kind: DefKindM::Message(fp.0),
                        },
                        fp.1,
                    ),
                ),
            },
        },
    }
}

/// The body of a union definition after its keyword: name, braces, variants.
pub open spec fn spec_union_def(s: Seq<char>, i: int, op: Option<u32>, ro: bool) -> Result<
    (DefinitionM, int),
    ParseErrorKind,
>
    decreases s.len() - i, 3nat,
{
    match spec_ident(s, i) {
        Err(k) => Err(k),
        Ok(np) => match spec_expect(s, np.1, "{"@) {
            Err(k) => Err(k),
            Ok(j1) => match (if i <= j1 <= s.len() {
                spec_union_variants(s, j1, Seq::empty())
            } else {
                Err(ParseErrorKind::MissingToken)
            }) {
                Err(k) => Err(k),
                Ok(fp) => Ok(
                    (
                        DefinitionM {
                            name: np.0,
                            opcode: op,
                            readonly: ro,
                            kind: DefKindM::Union(fp.0),
                        },
                        fp.1,
                    ),
                ),
            },
        },
    }
}

/// The body of a definition after its keyword, dispatched on the keyword. An
/// enum under an opcode attribute is fatal.
pub open spec fn spec_def_body(
    s: Seq<char>,
    op: Option<u32>,
    ro: bool,
    kw: Seq<char>,
    i: int,
) -> Result<(DefinitionM, int), ParseErrorKind>
    decreases s.len() - i, 4nat,
{
    if kw == "enum"@ {
        if op is Some {
            Err(ParseErrorKind::EnumWithOpcode)
        } else {
            spec_enum_def(s, i, ro)
        }
    } else if kw == "struct"@ {
        spec_struct_def(s, i, op, ro)
    } else if kw == "message"@ {
        spec_message_def(s, i, op, ro)
    } else if kw == "union"@ {
        spec_union_def(s, i, op, ro)
    } else {
        Err(ParseErrorKind::ExpectedDefinition)
    }
}

/// The exact outcome of parsing a whole schema text: its import directives
/// and definitions, in order, ending at the end of input.
pub open spec fn spec_file(s: Seq<char>, i: int) -> Result<
    (Seq<SchemaItemM>, int),
    ParseErrorKind,
>
    decreases s.len() - i, 6nat,
{
    let j = skip_ws(s, i);
    if j >= s.len() {
        Ok((Seq::empty(), j))
    } else if has_prefix(s, j, "import"@) {
        match spec_expect(s, j, "import"@) {
            Err(k) => Err(k),
            Ok(j1) => match spec_str_lit(s, j1) {
                Err(k) => Err(k),
                Ok(lp) => if i < lp.1 <= s.len() {
                    match spec_file(s, lp.1) {
                        Err(k) => Err(k),
                        Ok(ip) => Ok((seq![SchemaItemM::ImportItem(lp.0)] + ip.0, ip.1)),
                    }
                } else {
                    Err(ParseErrorKind::MissingToken)
                },
            },
        }
    } else {
        match (if i <= j <= s.len() {
            spec_definition(s, j)
        } else {
            Err(ParseErrorKind::MissingToken)
        }) {
            Err(k) => Err(k),
            Ok(dp) => if i < dp.1 <= s.len() {
                match spec_file(s, dp.1) {
                    Err(k) => Err(k),
                    Ok(ip) => Ok((seq![SchemaItemM::DefItem(dp.0)] + ip.0, ip.1)),
                }
            } else {
                Err(ParseErrorKind::MissingToken)
            },
        }
    }
}

/// One parsed union member steps the member parser forward.
pub proof fn lemma_union_step(
    s: Seq<char>,
    cur: int,
    seen: Seq<u8>,
    index: u32,
    idx: u8,
    a1: int,
    a2: int,
    a3: int,
    a4: int,
    dv: DefinitionM,
)
    requires
        !has_prefix(s, skip_ws(s, cur), "}"@),
        spec_number(s, skip_ws(s, cur)) == Ok::<(u32, int), ParseErrorKind>((index, a1)),
        index <= 255,
        idx == index as u8,
        !seen.contains(idx),
        spec_expect(s, a1, "-"@) == Ok::<int, ParseErrorKind>(a2),
        spec_expect(s, a2, ">"@) == Ok::<int, ParseErrorKind>(a3),
        cur < a3 <= s.len(),
        def_parsed(s, a3, dv, a4),
        cur < a4 <= s.len(),
    ensures
        spec_union_variants(s, cur, seen) == (match spec_union_variants(s, a4, seen.push(idx)) {
            Err(k) => Err::<(Seq<UnionVariantM>, int), ParseErrorKind>(k),
            Ok(fp) => Ok::<(Seq<UnionVariantM>, int), ParseErrorKind>(
                (seq![UnionVariantM { index: idx, def: dv }] + fp.0, fp.1),
            ),
        }),
{
    reveal(def_parsed);
}

/// One parsed import directive steps the file parser forward.
pub proof fn lemma_file_import_step(s: Seq<char>, cur: int, pv: Seq<char>, e1: int, a1: int)
    requires
        skip_ws(s, cur) < s.len(),
        has_prefix(s, skip_ws(s, cur), "import"@),
        spec_expect(s, skip_ws(s, cur), "import"@) == Ok::<int, ParseErrorKind>(e1),
        spec_str_lit(s, e1) == Ok::<(Seq<char>, int), ParseErrorKind>((pv, a1)),
        cur < a1 <= s.len(),
    ensures
        spec_file(s, cur) == (match spec_file(s, a1) {
            Err(k) => Err::<(Seq<SchemaItemM>, int), ParseErrorKind>(k),
            Ok(ip) => Ok::<(Seq<SchemaItemM>, int), ParseErrorKind>(
                (seq![SchemaItemM::ImportItem(pv)] + ip.0, ip.1),
            ),
        }),
{
}

/// One parsed definition steps the file parser forward.
pub proof fn lemma_file_def_step(s: Seq<char>, cur: int, dv: DefinitionM, a1: int)
    requires
        skip_ws(s, cur) < s.len(),
        cur <= skip_ws(s, cur) <= s.len(),
        !has_prefix(s, skip_ws(s, cur), "import"@),
        def_parsed(s, skip_ws(s, cur), dv, a1),
        cur < a1 <= s.len(),
    ensures
        spec_file(s, cur) == (match spec_file(s, a1) {
            Err(k) => Err::<(Seq<SchemaItemM>, int), ParseErrorKind>(k),
            Ok(ip) => Ok::<(Seq<SchemaItemM>, int), ParseErrorKind>(
                (seq![SchemaItemM::DefItem(dv)] + ip.0, ip.1),
            ),
        }),
{
    reveal(def_parsed);
}

/// A failed definition fails the file parse with the same error.
pub proof fn lemma_file_def_err(s: Seq<char>, cur: int, k: ParseErrorKind)
    requires
        skip_ws(s, cur) < s.len(),
        cur <= skip_ws(s, cur) <= s.len(),
        !has_prefix(s, skip_ws(s, cur), "import"@),
        def_parse_failed(s, skip_ws(s, cur), k),
    ensures
        spec_file(s, cur) == Err::<(Seq<SchemaItemM>, int), ParseErrorKind>(k),
{
    reveal(def_parse_failed);
}

/// The head of a definition at `i` has been consumed up to `pb`, leaving
/// the given opcode, readonly marker and keyword; what the whole definition
/// parses to is what its body parses to from `pb`.
#[verifier::opaque]
pub open spec fn def_head_parsed(
    s: Seq<char>,
    i: int,
    op: Option<u32>,
    ro: bool,
    kw: Seq<char>,
    pb: int,
) -> bool {
    spec_definition(s, i) == spec_def_body(s, op, ro, kw, pb)
}

/// The definition at `i` parses to the model `dm`, ending at `j`.
#[verifier::opaque]
pub open spec fn def_parsed(s: Seq<char>, i: int, dm: DefinitionM, j: int) -> bool {
    spec_definition(s, i) == Ok::<(DefinitionM, int), ParseErrorKind>((dm, j))
}

/// The definition at `i` fails to parse with the error `k`.
#[verifier::opaque]
pub open spec fn def_parse_failed(s: Seq<char>, i: int, k: ParseErrorKind) -> bool {
    spec_definition(s, i) == Err::<(DefinitionM, int), ParseErrorKind>(k)
}

/// The schema text from `p0` parses to `acc` plus whatever items remain
/// from position `i` on, ending where they end.
#[verifier::opaque]
pub open spec fn file_tail_eq(s: Seq<char>, p0: int, acc: Seq<SchemaItemM>, i: int) -> bool {
    spec_file(s, p0) == (match spec_file(s, i) {
        Err(k) => Err::<(Seq<SchemaItemM>, int), ParseErrorKind>(k),
        Ok(ip) => Ok::<(Seq<SchemaItemM>, int), ParseErrorKind>((acc + ip.0, ip.1)),
    })
}

/// The schema text at `i` parses to exactly the given items, ending at `j`.
#[verifier::opaque]
pub open spec fn file_parsed(s: Seq<char>, i: int, items: Seq<SchemaItemM>, j: int) -> bool {
    spec_file(s, i) == Ok::<(Seq<SchemaItemM>, int), ParseErrorKind>((items, j))
}

/// The schema text at `i` fails to parse with the error `k`.
#[verifier::opaque]
pub open spec fn file_parse_failed(s: Seq<char>, i: int, k: ParseErrorKind) -> bool {
    spec_file(s, i) == Err::<(Seq<SchemaItemM>, int), ParseErrorKind>(k)
}

/// Nothing parsed yet: the whole outcome is still ahead.
#[verifier::rlimit(100)]
pub proof fn lemma_ft_init(s: Seq<char>, p0: int)
    ensures
        file_tail_eq(s, p0, Seq::empty(), p0),
{
    reveal(file_tail_eq);
    let r0 = spec_file(s, p0);
    if r0 is Ok {
        assert(Seq::<SchemaItemM>::empty() + r0->Ok_0.0 =~= r0->Ok_0.0);
    }
}

/// At the end of input the accumulated items are the whole outcome.
#[verifier::rlimit(100)]
pub proof fn lemma_ft_done(s: Seq<char>, p0: int, acc: Seq<SchemaItemM>, cur: int)
    requires
        file_tail_eq(s, p0, acc, cur),
        0 <= cur <= s.len(),
        skip_ws(s, cur) >= s.len(),
    ensures
        file_parsed(s, p0, acc, skip_ws(s, cur)),
{
    reveal(file_tail_eq);
    reveal(file_parsed);
    reveal_with_fuel(spec_file, 1);
    assert(acc + Seq::<SchemaItemM>::empty() =~= acc);
}

/// One parsed import directive moves into the accumulated items.
#[verifier::rlimit(100)]
pub proof fn lemma_ft_import(
    s: Seq<char>,
    p0: int,
    acc: Seq<SchemaItemM>,
    cur: int,
    pv: Seq<char>,
    e1: int,
    a1: int,
)
    requires
        file_tail_eq(s, p0, acc, cur),
        skip_ws(s, cur) < s.len(),
        has_prefix(s, skip_ws(s, cur), "import"@),
        spec_expect(s, skip_ws(s, cur), "import"@) == Ok::<int, ParseErrorKind>(e1),
        spec_str_lit(s, e1) == Ok::<(Seq<char>, int), ParseErrorKind>((pv, a1)),
        cur < a1 <= s.len(),
    ensures
        file_tail_eq(s, p0, acc + seq![SchemaItemM::ImportItem(pv)], a1),
{
    reveal(file_tail_eq);
    lemma_file_import_step(s, cur, pv, e1, a1);
    let rr = spec_file(s, a1);
    if rr is Ok {
        assert(acc + (seq![SchemaItemM::ImportItem(pv)] + rr->Ok_0.0) =~= (acc + seq![
            SchemaItemM::ImportItem(pv),
        ]) + rr->Ok_0.0);
    }
}

/// One parsed definition moves into the accumulated items.
#[verifier::rlimit(100)]
pub proof fn lemma_ft_def(
    s: Seq<char>,
    p0: int,
    acc: Seq<SchemaItemM>,
    cur: int,
    dv: DefinitionM,
    a1: int,
)
    requires
        file_tail_eq(s, p0, acc, cur),
        skip_ws(s, cur) < s.len(),
        cur <= skip_ws(s, cur) <= s.len(),
        !has_prefix(s, skip_ws(s, cur), "import"@),
        def_parsed(s, skip_ws(s, cur), dv, a1),
        cur < a1 <= s.len(),
    ensures
        file_tail_eq(s, p0, acc + seq![SchemaItemM::DefItem(dv)], a1),
{
    reveal(file_tail_eq);
    lemma_file_def_step(s, cur, dv, a1);
    let rr = spec_file(s, a1);
    if rr is Ok {
        assert(acc + (seq![SchemaItemM::DefItem(dv)] + rr->Ok_0.0) =~= (acc + seq![
            SchemaItemM::DefItem(dv),
        ]) + rr->Ok_0.0);
    }
}

/// A failed `import` keyword fails the whole file parse.
#[verifier::rlimit(100)]
pub proof fn lemma_ft_import_kw_err(
    s: Seq<char>,
    p0: int,
    acc: Seq<SchemaItemM>,
    cur: int,
    k: ParseErrorKind,
)
    requires
        file_tail_eq(s, p0, acc, cur),
        skip_ws(s, cur) < s.len(),
        has_prefix(s, skip_ws(s, cur), "import"@),
        spec_expect(s, skip_ws(s, cur), "import"@) == Err::<int, ParseErrorKind>(k),
    ensures
        file_parse_failed(s, p0, k),
{
    reveal(file_tail_eq);
    reveal(file_parse_failed);
    reveal_with_fuel(spec_file, 1);
}

/// A failed import path literal fails the whole file parse.
#[verifier::rlimit(100)]
pub proof fn lemma_ft_lit_err(
    s: Seq<char>,
    p0: int,
    acc: Seq<SchemaItemM>,
    cur: int,
    e1: int,
    k: ParseErrorKind,
)
    requires
        file_tail_eq(s, p0, acc, cur),
        skip_ws(s, cur) < s.len(),
        has_prefix(s, skip_ws(s, cur), "import"@),
        spec_expect(s, skip_ws(s, cur), "import"@) == Ok::<int, ParseErrorKind>(e1),
        spec_str_lit(s, e1) matches Err(k2) && k2 == k,
    ensures
        file_parse_failed(s, p0, k),
{
    reveal(file_tail_eq);
    reveal(file_parse_failed);
    reveal_with_fuel(spec_file, 1);
}

/// A failed definition fails the whole file parse.
#[verifier::rlimit(100)]
pub proof fn lemma_ft_def_err(
    s: Seq<char>,
    p0: int,
    acc: Seq<SchemaItemM>,
    cur: int,
    k: ParseErrorKind,
)
    requires
        file_tail_eq(s, p0, acc, cur),
        skip_ws(s, cur) < s.len(),
        cur <= skip_ws(s, cur) <= s.len(),
        !has_prefix(s, skip_ws(s, cur), "import"@),
        def_parse_failed(s, skip_ws(s, cur), k),
    ensures
        file_parse_failed(s, p0, k),
{
    reveal(file_tail_eq);
    reveal(file_parse_failed);
    lemma_file_def_err(s, cur, k);
}

/// A digit string's value is nonnegative.
pub proof fn lemma_digits_val_nonneg(t: Seq<char>, radix: int)
    requires
        radix == 10 || radix == 16,
        digits_ok(t, radix) || t.len() == 0,
    ensures
        digits_val(t, radix) >= 0,
    decreases t.len(),
{
    if t.len() > 0 {
        assert(digits_ok(t.drop_last(), radix) || t.drop_last().len() == 0);
        lemma_digits_val_nonneg(t.drop_last(), radix);
        let x = digits_val(t.drop_last(), radix);
        let d = digit_val(t.last());
        assert(d >= 0);
        assert(x * radix >= 0) by (nonlinear_arith)
            requires
                x >= 0,
                radix > 0,
        ;
    }
}

/// Extending a digit string never shrinks its value.
pub proof fn lemma_digits_val_prefix(t: Seq<char>, radix: int, i: int)
    requires
        radix == 10 || radix == 16,
        digits_ok(t, radix),
        0 < i <= t.len(),
    ensures
        digits_val(t.take(i), radix) <= digits_val(t, radix),
    decreases t.len() - i,
{
    if i < t.len() {
        lemma_digits_val_prefix(t, radix, i + 1);
        let u = t.take(i + 1);
        assert(u.drop_last() =~= t.take(i));
        assert(digits_ok(t.take(i), radix));
        lemma_digits_val_nonneg(t.take(i), radix);
        let x = digits_val(t.take(i), radix);
        let d = digit_val(u.last());
        assert(x * radix + d >= x) by (nonlinear_arith)
            requires
                x >= 0,
                d >= 0,
                radix >= 1,
        ;
    } else {
        assert(t.take(i) =~= t);
    }
}

/// A token always ends past its start and within the input.
pub proof fn lemma_token_end(s: Seq<char>, i: int)
    requires
        0 <= i < s.len(),
    ensures
        i < token_end(s, i) <= s.len(),
{
    if is_word_char(s[i]) {
        lemma_word_end(s, i + 1);
    }
}

} // verus!
