//! Splitting a raw command line into whitespace-delimited tokens, and finding
//! the token under the cursor.
//!
//! Quoting and escaping are deliberately ignored: completion works on unquoted
//! bare tokens.

use vstd::prelude::*;
use vstd::string::*;
use vstd::utf8::*;

use crate::text;

verus! {

broadcast use vstd::seq_lib::group_seq_properties;

/// A single whitespace-delimited token from the command line.
#[derive(Debug, Clone, PartialEq, Eq)]
pub struct Token<'a> {
    pub text: &'a str,
    /// Byte offset of the first character (inclusive).
    pub start: usize,
    /// Byte offset one past the last character (exclusive).
    pub end: usize,
}

/// Where the cursor sits relative to the tokens.
#[derive(Debug, Clone, Copy, PartialEq, Eq, Structural)]
pub enum CursorPlacement {
    /// Cursor is inside (or at the end of) a specific token. The user
    /// is mid-edit on that token's prefix.
    InToken { index: usize },
    /// Cursor is in whitespace between/after tokens: the user has
    /// finished the previous token and is about to start a new one.
    BetweenTokens,
}

/// Outcome of tokenizing a command-line + cursor pair.
#[derive(Debug, Clone)]
pub struct Tokenized<'a> {
    pub tokens: Vec<Token<'a>>,
    pub cursor: CursorPlacement,
}

/// What a [`Token`] stands for: its text and its byte range in the line.
pub struct TokenView {
    pub text: Seq<char>,
    pub start: int,
    pub end: int,
}

impl<'a> View for Token<'a> {
    type V = TokenView;

    open spec fn view(&self) -> TokenView {
        TokenView { text: self.text@, start: self.start as int, end: self.end as int }
    }
}

impl<'a> Tokenized<'a> {
    /// The tokens, in line order.
    pub open spec fn views(&self) -> Seq<TokenView> {
        self.tokens@.map_values(|t: Token<'a>| t@)
    }

    /// The texts of the tokens, in line order.
    pub open spec fn texts(&self) -> Seq<Seq<char>> {
        self.tokens@.map_values(|t: Token<'a>| t.text@)
    }

    /// The cursor, if it is in a token, is in one that exists.
    pub open spec fn wf(&self) -> bool {
        self.cursor matches CursorPlacement::InToken { index } ==> index < self.tokens@.len()
    }

    /// Every token's range cuts `line` at character boundaries, and its text is
    /// what stands there.
    pub open spec fn fits(&self, line: Seq<char>) -> bool {
        &&& self.wf()
        &&& forall|i: int| 0 <= i < self.tokens@.len() ==> #[trigger] token_fits(self.tokens@[i]@, line)
    }
}

/// The token's range lies in `line`, is cut at character boundaries, and holds
/// the token's text.
pub open spec fn token_fits(t: TokenView, line: Seq<char>) -> bool {
    let bytes = encode_utf8(line);
    &&& 0 <= t.start <= t.end <= bytes.len()
    &&& text::is_cut(bytes, t.start)
    &&& text::is_cut(bytes, t.end)
    &&& t.text == decode_utf8(bytes.subrange(t.start, t.end))
}

/// ASCII whitespace: space, tab, line feed, form feed and carriage return.
pub open spec fn is_space(b: u8) -> bool {
    b == 0x20 || b == 0x09 || b == 0x0a || b == 0x0c || b == 0x0d
}

/// The first offset from `from` on whose byte is no whitespace, or the end.
pub open spec fn next_word(bytes: Seq<u8>, from: int) -> int
    decreases bytes.len() - from,
{
    if 0 <= from < bytes.len() && is_space(bytes[from]) {
        next_word(bytes, from + 1)
    } else {
        from
    }
}

/// The first offset from `from` on whose byte is whitespace, or the end.
pub open spec fn next_break(bytes: Seq<u8>, from: int) -> int
    decreases bytes.len() - from,
{
    if 0 <= from < bytes.len() && !is_space(bytes[from]) {
        next_break(bytes, from + 1)
    } else {
        from
    }
}

/// The byte ranges of the tokens that begin at `from` or later.
pub open spec fn token_ranges(bytes: Seq<u8>, from: int) -> Seq<(int, int)>
    decreases bytes.len() - from,
    via token_ranges_decreases
{
    let start = next_word(bytes, from);
    if 0 <= from && start < bytes.len() {
        let end = next_break(bytes, start);
        seq![(start, end)] + token_ranges(bytes, end)
    } else {
        seq![]
    }
}

#[via_fn]
proof fn token_ranges_decreases(bytes: Seq<u8>, from: int) {
    if 0 <= from {
        lemma_next_word(bytes, from);
        lemma_next_break(bytes, next_word(bytes, from));
    }
}

/// `next_word` skips whitespace only, and stops at a word or at the end.
pub proof fn lemma_next_word(bytes: Seq<u8>, from: int)
    requires
        0 <= from,
    ensures
        from <= next_word(bytes, from),
        from <= bytes.len() ==> next_word(bytes, from) <= bytes.len(),
        next_word(bytes, from) < bytes.len() ==> !is_space(bytes[next_word(bytes, from)]),
        forall|k: int| from <= k < next_word(bytes, from) ==> is_space(#[trigger] bytes[k]),
    decreases bytes.len() - from,
{
    if from < bytes.len() && is_space(bytes[from]) {
        lemma_next_word(bytes, from + 1);
    }
}

/// `next_break` skips non-whitespace only, and stops at whitespace or at the end.
pub proof fn lemma_next_break(bytes: Seq<u8>, from: int)
    requires
        0 <= from,
    ensures
        from <= next_break(bytes, from),
        from <= bytes.len() ==> next_break(bytes, from) <= bytes.len(),
        from < bytes.len() && !is_space(bytes[from]) ==> from < next_break(bytes, from),
        next_break(bytes, from) < bytes.len() ==> is_space(bytes[next_break(bytes, from)]),
        forall|k: int| from <= k < next_break(bytes, from) ==> !is_space(#[trigger] bytes[k]),
    decreases bytes.len() - from,
{
    if from < bytes.len() && !is_space(bytes[from]) {
        lemma_next_break(bytes, from + 1);
    }
}

/// The token that occupies the byte range `r` of `bytes`.
pub open spec fn token_at(bytes: Seq<u8>, r: (int, int)) -> TokenView {
    TokenView { text: decode_utf8(bytes.subrange(r.0, r.1)), start: r.0, end: r.1 }
}

/// The tokens of `line`: its maximal runs of non-whitespace, in order.
pub open spec fn tokens_of(line: Seq<char>) -> Seq<TokenView> {
    let bytes = encode_utf8(line);
    token_ranges(bytes, 0).map_values(|r: (int, int)| token_at(bytes, r))
}

/// Whether the cursor touches the token, its end included.
pub open spec fn touches(t: TokenView, cursor: int) -> bool {
    t.start <= cursor <= t.end
}

/// The first token from `i` on that the cursor touches decides the placement:
/// the cursor is in it, unless it stands at the token's end with whitespace
/// already typed behind it.
pub open spec fn locate(tokens: Seq<TokenView>, cursor: int, bytes: Seq<u8>, i: int) -> CursorPlacement
    decreases tokens.len() - i,
{
    if 0 <= i < tokens.len() {
        if touches(tokens[i], cursor) {
            if cursor == tokens[i].end && 0 <= cursor < bytes.len() && is_space(bytes[cursor]) {
                CursorPlacement::BetweenTokens
            } else {
                CursorPlacement::InToken { index: i as usize }
            }
        } else {
            locate(tokens, cursor, bytes, i + 1)
        }
    } else {
        CursorPlacement::BetweenTokens
    }
}

/// `cursor` as a byte offset into `bytes`, clamped to its end.
pub open spec fn clamped(bytes: Seq<u8>, cursor: int) -> int {
    if cursor <= bytes.len() {
        cursor
    } else {
        bytes.len() as int
    }
}

/// Where the byte offset `cursor` sits among the tokens of `line`.
pub open spec fn placement(line: Seq<char>, cursor: int) -> CursorPlacement {
    let bytes = encode_utf8(line);
    locate(tokens_of(line), clamped(bytes, cursor), bytes, 0)
}

pub(crate) fn is_space_byte(b: u8) -> (r: bool)
    ensures
        r == is_space(b),
{
    b == 0x20 || b == 0x09 || b == 0x0a || b == 0x0c || b == 0x0d
}

impl<'a> Tokenized<'a> {
    /// The text at the cursor: the token the user is editing, or nothing when
    /// the cursor is between tokens.
    ///
    /// The cursor counts as standing at the end of what has been typed, so the
    /// prefix is the whole token.
    pub fn cursor_prefix(&self, line: &'a str) -> (r: &'a str)
        requires
            self.wf(),
            self.cursor matches CursorPlacement::InToken { index } ==> {
                let t = self.tokens@[index as int];
                &&& t.start <= t.end <= line.spec_bytes().len()
                &&& text::is_cut(line.spec_bytes(), t.start as int)
                &&& text::is_cut(line.spec_bytes(), t.end as int)
            },
        ensures
            match self.cursor {
                CursorPlacement::InToken { index } => {
                    let t = self.tokens@[index as int];
                    r@ == decode_utf8(line.spec_bytes().subrange(t.start as int, t.end as int))
                },
                CursorPlacement::BetweenTokens => r@ == Seq::<char>::empty(),
            },
    {
        match self.cursor {
            CursorPlacement::InToken { index } => {
                let tok = &self.tokens[index];
                text::slice(line, tok.start, tok.end)
            },
            CursorPlacement::BetweenTokens => {
                proof {
                    reveal_strlit("");
                }
                ""
            },
        }
    }
}

/// Split `line` into tokens and locate where `cursor` sits among them.
/// `cursor` is a byte offset into `line`; values out of range are
/// clamped to `line.len()`.
pub fn tokenize(line: &str, cursor: usize) -> (r: Tokenized<'_>)
    ensures
        r.views() == tokens_of(line@),
        r.cursor == placement(line@, cursor as int),
        r.fits(line@),
{
    let bytes = line.as_bytes();
    let cursor = if cursor < bytes.len() { cursor } else { bytes.len() };
    let mut tokens: Vec<Token<'_>> = Vec::new();
    let mut i: usize = 0;
    let ghost all = token_ranges(bytes@, 0);
    proof {
        encode_utf8_valid_utf8(line@);
        is_char_boundary_start_end_of_seq(bytes@);
    }
    while i < bytes.len()
        invariant
            bytes@ == encode_utf8(line@),
            valid_utf8(bytes@),
            i <= bytes@.len(),
            text::is_cut(bytes@, 0),
            text::is_cut(bytes@, bytes@.len() as int),
            all == token_ranges(bytes@, 0),
            all =~= tokens@.map_values(|t: Token<'_>| (t.start as int, t.end as int)) + token_ranges(bytes@, i as int),
            forall|k: int| 0 <= k < tokens@.len() ==> #[trigger] token_fits(tokens@[k]@, line@),
            i > 0 && i < bytes@.len() ==> is_space(bytes@[i as int]),
        decreases bytes@.len() - i,
    {
        let ghost from = i;
        proof {
            lemma_next_word(bytes@, from as int);
        }
        while i < bytes.len() && is_space_byte(bytes[i])
            invariant
                from <= i <= bytes@.len(),
                next_word(bytes@, i as int) == next_word(bytes@, from as int),
            decreases bytes@.len() - i,
        {
            i += 1;
        }
        assert(i == next_word(bytes@, from as int));
        if i < bytes.len() {
            let start = i;
            proof {
                lemma_next_break(bytes@, start as int);
            }
            while i < bytes.len() && !is_space_byte(bytes[i])
                invariant
                    start <= i <= bytes@.len(),
                    next_break(bytes@, i as int) == next_break(bytes@, start as int),
                decreases bytes@.len() - i,
            {
                i += 1;
            }
            assert(i == next_break(bytes@, start as int));
            proof {
                if start > 0 {
                    assert(start > from ==> is_space(bytes@[start - 1]));
                    text::lemma_cut_at_ascii(bytes@, start - 1);
                }
                if i < bytes.len() {
                    text::lemma_cut_at_ascii(bytes@, i as int);
                }
            }
            let ghost before = tokens@;
            tokens.push(Token { text: text::slice(line, start, i), start, end: i });
            proof {
                assert(tokens@.last()@ == token_at(bytes@, (start as int, i as int)));
                assert forall|k: int| 0 <= k < tokens@.len() implies #[trigger] token_fits(tokens@[k]@, line@) by {
                    if k < before.len() {
                        assert(token_fits(before[k]@, line@));
                    }
                }
            }
        }
    }
    let placement = locate_cursor(&tokens, cursor, line);
    let r = Tokenized { tokens, cursor: placement };
    proof {
        assert(token_ranges(bytes@, i as int) =~= seq![]);
        assert forall|k: int| 0 <= k < r.tokens@.len() implies r.views()[k] == tokens_of(line@)[k] by {
            assert(token_fits(r.tokens@[k]@, line@));
            assert(all[k] == (r.tokens@[k].start as int, r.tokens@[k].end as int));
        }
        assert(r.views() =~= tokens_of(line@));
    }
    r
}

fn locate_cursor(tokens: &Vec<Token<'_>>, cursor: usize, line: &str) -> (r: CursorPlacement)
    ensures
        r == locate(tokens@.map_values(|t: Token<'_>| t@), cursor as int, line.spec_bytes(), 0),
        r matches CursorPlacement::InToken { index } ==> index < tokens@.len(),
{
    let bytes = line.as_bytes();
    let ghost views = tokens@.map_values(|t: Token<'_>| t@);
    let mut i: usize = 0;
    while i < tokens.len()
        invariant
            i <= tokens@.len(),
            bytes@ == line.spec_bytes(),
            views == tokens@.map_values(|t: Token<'_>| t@),
            locate(views, cursor as int, bytes@, 0) == locate(views, cursor as int, bytes@, i as int),
        decreases tokens@.len() - i,
    {
        let tok = &tokens[i];
        assert(views[i as int] == tokens@[i as int]@);
        if cursor >= tok.start && cursor <= tok.end {
            // At the end of a token that is followed by whitespace, the user
            // has already finished it.
            if cursor == tok.end && cursor < bytes.len() && is_space_byte(bytes[cursor]) {
                return CursorPlacement::BetweenTokens;
            }
            return CursorPlacement::InToken { index: i };
        }
        i += 1;
    }
    CursorPlacement::BetweenTokens
}

/// A range of `bytes` that no whitespace interrupts, that is not empty, and that
/// cannot be extended on either side.
pub open spec fn is_maximal_run(bytes: Seq<u8>, r: (int, int)) -> bool {
    &&& 0 <= r.0 < r.1 <= bytes.len()
    &&& forall|k: int| r.0 <= k < r.1 ==> !is_space(#[trigger] bytes[k])
    &&& r.0 > 0 ==> is_space(bytes[r.0 - 1])
    &&& r.1 < bytes.len() ==> is_space(bytes[r.1])
}

proof fn lemma_ranges_from(bytes: Seq<u8>, from: int)
    requires
        0 <= from <= bytes.len(),
        0 < from < bytes.len() ==> is_space(bytes[from]),
    ensures
        forall|i: int|
            0 <= i < token_ranges(bytes, from).len() ==> {
                &&& is_maximal_run(bytes, #[trigger] token_ranges(bytes, from)[i])
                &&& from <= token_ranges(bytes, from)[i].0
                &&& from > 0 ==> from < token_ranges(bytes, from)[i].0
            },
        forall|i: int, j: int|
            0 <= i < j < token_ranges(bytes, from).len() ==> (#[trigger] token_ranges(bytes, from)[i]).1
                < (#[trigger] token_ranges(bytes, from)[j]).0,
        forall|k: int|
            from <= k < bytes.len() && !is_space(#[trigger] bytes[k]) ==> exists|i: int|
                0 <= i < token_ranges(bytes, from).len() && (#[trigger] token_ranges(bytes, from)[i]).0 <= k
                    < token_ranges(bytes, from)[i].1,
    decreases bytes.len() - from,
{
    let rs = token_ranges(bytes, from);
    let start = next_word(bytes, from);
    lemma_next_word(bytes, from);
    if start < bytes.len() {
        let end = next_break(bytes, start);
        lemma_next_break(bytes, start);
        lemma_ranges_from(bytes, end);
        let rest = token_ranges(bytes, end);
        assert(rs =~= seq![(start, end)] + rest);
        assert forall|k: int| from <= k < bytes.len() && !is_space(#[trigger] bytes[k]) implies exists|i: int|
            0 <= i < rs.len() && (#[trigger] rs[i]).0 <= k < rs[i].1 by {
            if k < end {
                assert(rs[0].0 <= k < rs[0].1);
            } else {
                let i = choose|i: int| 0 <= i < rest.len() && (#[trigger] rest[i]).0 <= k < rest[i].1;
                assert(rs[i + 1] == rest[i]);
            }
        }
        assert forall|i: int, j: int| 0 <= i < j < rs.len() implies (#[trigger] rs[i]).1 < (#[trigger] rs[j]).0 by {
            assert(rs[j] == rest[j - 1]);
            if i > 0 {
                assert(rs[i] == rest[i - 1]);
            }
        }
        assert forall|i: int| 0 <= i < rs.len() implies {
            &&& is_maximal_run(bytes, #[trigger] rs[i])
            &&& from <= rs[i].0
            &&& from > 0 ==> from < rs[i].0
        } by {
            if i > 0 {
                assert(rs[i] == rest[i - 1]);
            }
        }
    }
}

/// The tokens of a line are exactly its maximal runs of non-whitespace: each
/// token is one, they come in line order with whitespace between them, and every
/// byte that is no whitespace lies in a token.
pub proof fn law_tokens_are_the_maximal_runs(line: Seq<char>)
    ensures
        forall|i: int|
            0 <= i < tokens_of(line).len() ==> {
                let t = #[trigger] tokens_of(line)[i];
                is_maximal_run(encode_utf8(line), (t.start, t.end))
            },
        forall|i: int, j: int|
            0 <= i < j < tokens_of(line).len() ==> (#[trigger] tokens_of(line)[i]).end < (
            #[trigger] tokens_of(line)[j]).start,
        forall|k: int|
            0 <= k < encode_utf8(line).len() && !is_space(#[trigger] encode_utf8(line)[k]) ==> exists|i: int|
                0 <= i < tokens_of(line).len() && (#[trigger] tokens_of(line)[i]).start <= k
                    < tokens_of(line)[i].end,
{
    let bytes = encode_utf8(line);
    let rs = token_ranges(bytes, 0);
    lemma_ranges_from(bytes, 0);
    assert forall|k: int| 0 <= k < bytes.len() && !is_space(#[trigger] bytes[k]) implies exists|i: int|
        0 <= i < tokens_of(line).len() && (#[trigger] tokens_of(line)[i]).start <= k < tokens_of(line)[i].end by {
        let i = choose|i: int| 0 <= i < rs.len() && (#[trigger] rs[i]).0 <= k < rs[i].1;
        assert(tokens_of(line)[i] == token_at(bytes, rs[i]));
    }
}

/// The cursor is in a token exactly when it stands before the end of that token
/// but not before its start, or at the end of the token and of the whole line.
/// Everywhere else it is between tokens.
pub proof fn law_cursor_placement(line: Seq<char>, cursor: int, index: int)
    requires
        0 <= cursor,
        0 <= index < tokens_of(line).len(),
        tokens_of(line).len() <= usize::MAX,
    ensures
        ({
            let t = tokens_of(line)[index];
            let len = encode_utf8(line).len();
            let at = if cursor < len {
                cursor
            } else {
                len as int
            };
            placement(line, cursor) == (CursorPlacement::InToken { index: index as usize }) <==> (t.start <= at
                < t.end || (at == t.end && at == len))
        }),
        placement(line, cursor) matches CursorPlacement::InToken { index: i } ==> i < tokens_of(line).len(),
{
    let bytes = encode_utf8(line);
    let at = clamped(bytes, cursor);
    law_tokens_are_the_maximal_runs(line);
    lemma_locate(tokens_of(line), at, bytes, 0, index);
}

proof fn lemma_locate(tokens: Seq<TokenView>, at: int, bytes: Seq<u8>, from: int, index: int)
    requires
        0 <= at <= bytes.len(),
        0 <= from <= tokens.len(),
        0 <= index < tokens.len(),
        tokens.len() <= usize::MAX,
        forall|i: int| 0 <= i < tokens.len() ==> is_maximal_run(bytes, ((#[trigger] tokens[i]).start, tokens[i].end)),
        forall|i: int, j: int|
            0 <= i < j < tokens.len() ==> (#[trigger] tokens[i]).end < (#[trigger] tokens[j]).start,
    ensures
        locate(tokens, at, bytes, from) == (CursorPlacement::InToken { index: index as usize }) <==> from <= index
            && (tokens[index].start <= at < tokens[index].end || (at == tokens[index].end && at == bytes.len())),
        locate(tokens, at, bytes, from) matches CursorPlacement::InToken { index: i } ==> i < tokens.len(),
    decreases tokens.len() - from,
{
    if from < tokens.len() && !touches(tokens[from], at) {
        lemma_locate(tokens, at, bytes, from + 1, index);
    }
}

/// A cursor beyond the end of the line counts as standing at its end.
pub proof fn law_cursor_is_clamped(line: Seq<char>, cursor: int)
    requires
        encode_utf8(line).len() <= cursor,
    ensures
        placement(line, cursor) == placement(line, encode_utf8(line).len() as int),
{
}

/// White space is the space, the tab, the line feed, the form feed and the
/// carriage return, and nothing else.
pub proof fn law_white_space(b: u8)
    ensures
        is_space(b) <==> b == 0x20 || b == 0x09 || b == 0x0a || b == 0x0c || b == 0x0d,
{
}

/// A token's text is what its range of the line encodes.
pub proof fn law_token_text_is_its_range(line: Seq<char>, i: int)
    requires
        0 <= i < tokens_of(line).len(),
    ensures
        encode_utf8(tokens_of(line)[i].text) == encode_utf8(line).subrange(
            tokens_of(line)[i].start,
            tokens_of(line)[i].end,
        ),
{
    let t = tokens_of(line)[i];
    let bytes = encode_utf8(line);
    law_tokens_are_the_maximal_runs(line);
    encode_utf8_valid_utf8(line);
    is_char_boundary_start_end_of_seq(bytes);
    assert(is_maximal_run(bytes, (t.start, t.end)));
    if t.start > 0 {
        text::lemma_cut_at_ascii(bytes, t.start - 1);
    }
    if t.end < bytes.len() {
        text::lemma_cut_at_ascii(bytes, t.end);
    }
    text::lemma_cut_in_prefix(bytes, t.start, t.end);
    valid_utf8_split(bytes, t.end);
    let head = bytes.subrange(0, t.end);
    valid_utf8_split(head, t.start);
    assert(head.subrange(t.start, head.len() as int) =~= bytes.subrange(t.start, t.end));
    decode_utf8_encode_utf8(bytes.subrange(t.start, t.end));
}


} // verus!
