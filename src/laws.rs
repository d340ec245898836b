use vstd::prelude::*;

use crate::error::Error;
use crate::syntax::{
    at_end_at, check_any, line_at, Parsed, fold_level, level_kinds, literal_kinds, parse_level, parse_primary, parsed, ExprView,
};
use crate::scanner::{
    char_at, comment_end, count_newlines, digits_end, prepend, eof_token, is_ascii_letter, is_digit, is_word_char, keyword_kind,
    number_end, pair_kinds, scan_from, scan_step, scanned, single_kind, starts_word, string_end,
    word_end, Lexed, TokenType, TokenView,
};

verus! {

proof fn lemma_string_end(s: Seq<char>, i: int)
    requires
        0 <= i <= s.len(),
    ensures
        i <= string_end(s, i) <= s.len(),
        forall|j: int| i <= j < string_end(s, i) ==> s[j] != '"',
        string_end(s, i) < s.len() ==> s[string_end(s, i)] == '"',
    decreases s.len() - i,
{
    if i < s.len() && s[i] != '"' {
        lemma_string_end(s, i + 1);
    }
}

proof fn lemma_string_end_at(w: Seq<char>, i: int, k: int)
    requires
        0 <= i <= k <= w.len(),
        forall|j: int| i <= j < k ==> w[j] != '"',
        k == w.len() || w[k] == '"',
    ensures
        string_end(w, i) == k,
    decreases k - i,
{
    if i < k {
        lemma_string_end_at(w, i + 1, k);
    }
}

proof fn lemma_digits_end(s: Seq<char>, i: int)
    requires
        0 <= i <= s.len(),
    ensures
        i <= digits_end(s, i) <= s.len(),
        forall|j: int| i <= j < digits_end(s, i) ==> is_digit(s[j]),
        digits_end(s, i) < s.len() ==> !is_digit(s[digits_end(s, i)]),
    decreases s.len() - i,
{
    if i < s.len() && is_digit(s[i]) {
        lemma_digits_end(s, i + 1);
    }
}

proof fn lemma_digits_end_at(w: Seq<char>, i: int, k: int)
    requires
        0 <= i <= k <= w.len(),
        forall|j: int| i <= j < k ==> is_digit(w[j]),
        k == w.len() || !is_digit(w[k]),
    ensures
        digits_end(w, i) == k,
    decreases k - i,
{
    if i < k {
        lemma_digits_end_at(w, i + 1, k);
    }
}

proof fn lemma_word_end(s: Seq<char>, i: int)
    requires
        0 <= i <= s.len(),
    ensures
        i <= word_end(s, i) <= s.len(),
        forall|j: int| i <= j < word_end(s, i) ==> is_word_char(s[j]),
        word_end(s, i) < s.len() ==> !is_word_char(s[word_end(s, i)]),
    decreases s.len() - i,
{
    if i < s.len() && is_word_char(s[i]) {
        lemma_word_end(s, i + 1);
    }
}

proof fn lemma_word_end_at(w: Seq<char>, i: int, k: int)
    requires
        0 <= i <= k <= w.len(),
        forall|j: int| i <= j < k ==> is_word_char(w[j]),
        k == w.len() || !is_word_char(w[k]),
    ensures
        word_end(w, i) == k,
    decreases k - i,
{
    if i < k {
        lemma_word_end_at(w, i + 1, k);
    }
}

/// The kind that a lexeme makes when it stands alone: a punctuation mark, a
/// one- or two-character operator, or a keyword.
pub open spec fn lexeme_kind(w: Seq<char>) -> Option<TokenType> {
    if w.len() == 1 && single_kind(w[0]) is Some {
        single_kind(w[0])
    } else if w == seq!['/'] {
        Some(TokenType::Slash)
    } else if w.len() == 1 && pair_kinds(w[0]) is Some {
        match pair_kinds(w[0]) {
            Some((one, _)) => Some(one),
            None => None,
        }
    } else if w.len() == 2 && w[1] == '=' && pair_kinds(w[0]) is Some {
        match pair_kinds(w[0]) {
            Some((_, two)) => Some(two),
            None => None,
        }
    } else {
        keyword_kind(w)
    }
}

/// Scanning a lone punctuation mark, operator or keyword gives exactly one
/// token of its kind, followed by the end-of-input token.
pub proof fn lemma_single_lexeme(w: Seq<char>)
    requires
        lexeme_kind(w) is Some,
    ensures
        scanned(w) == Ok::<Seq<TokenView>, Error>(
            seq![
                TokenView { ty: lexeme_kind(w)->0, lexeme: w, literal: seq![], line: 1 },
                eof_token(1),
            ],
        ),
{
    assert(w.subrange(0, w.len() as int) =~= w);
    let one = seq![TokenView { ty: lexeme_kind(w)->0, lexeme: w, literal: seq![], line: 1 }];
    assert(scan_from(w, w.len() as int, 1) == Ok::<Seq<TokenView>, Error>(seq![eof_token(1)]));
    assert(one + seq![eof_token(1)] =~= seq![one[0], eof_token(1)]);
    if w.len() == 1 && single_kind(w[0]) is Some {
    } else if w == seq!['/'] {
    } else if w.len() == 1 && pair_kinds(w[0]) is Some {
    } else if w.len() == 2 && w[1] == '=' && pair_kinds(w[0]) is Some {
    } else {
        assert(forall|j: int| 0 <= j < w.len() ==> is_ascii_letter(#[trigger] w[j]));
        lemma_word_end_at(w, 1, w.len() as int);
        assert(keyword_kind(w.subrange(0, word_end(w, 1))) == lexeme_kind(w));
    }
}

/// Whether scanning `w` on its own gives one token of the kind, lexeme and
/// payload of `t`, on the line its own newlines give, then the end of input.
pub open spec fn rescans_to(w: Seq<char>, t: TokenView) -> bool {
    let r = scanned(w);
    &&& r is Ok
    &&& r->Ok_0.len() == 2
    &&& r->Ok_0[0].ty == t.ty
    &&& r->Ok_0[0].lexeme == t.lexeme
    &&& r->Ok_0[0].literal == t.literal
    &&& r->Ok_0[0].line == rescan_line(t)
    &&& r->Ok_0[1].ty == TokenType::Eof
}

/// The line of a token scanned on its own from its lexeme: one more than the
/// newlines inside a string literal, else the first line.
pub open spec fn rescan_line(t: TokenView) -> usize {
    if t.ty == TokenType::String {
        (1 + count_newlines(t.literal)) as usize
    } else {
        1
    }
}

/// One token-making step, repeated on its own lexeme, makes the same token
/// and consumes the whole lexeme.
proof fn lemma_rescan_step(s: Seq<char>, p: int, line: usize)
    requires
        0 <= p < s.len(),
        scan_step(s, p, line).lexed is Emit,
        p < scan_step(s, p, line).next <= s.len(),
    ensures
        ({
            let st = scan_step(s, p, line);
            let t = st.lexed->Emit_0;
            let w = s.subrange(p, st.next);
            let st2 = scan_step(w, 0, 1);
            &&& st2.lexed is Emit
            &&& st2.next == w.len()
            &&& st2.lexed->Emit_0.ty == t.ty
            &&& st2.lexed->Emit_0.lexeme == t.lexeme
            &&& st2.lexed->Emit_0.literal == t.literal
            &&& st2.lexed->Emit_0.line == rescan_line(t)
        }),
{
    let st = scan_step(s, p, line);
    let w = s.subrange(p, st.next);
    let c = s[p];
    assert(w[0] == c);
    assert(w.subrange(0, w.len() as int) =~= w);
    if single_kind(c) is Some {
    } else if pair_kinds(c) is Some {
        if char_at(s, p + 1) == '=' {
            assert(char_at(w, 1) == '=');
        } else {
            assert(char_at(w, 1) == '\0');
        }
    } else if c == '/' {
        assert(char_at(w, 1) == '\0');
    } else if c == ' ' || c == '\r' || c == '\t' || c == '\n' {
    } else if c == '"' {
        lemma_string_end(s, p + 1);
        let e = string_end(s, p + 1);
        assert forall|j: int| 1 <= j < e - p implies w[j] != '"' by {
            assert(w[j] == s[p + j]);
        }
        lemma_string_end_at(w, 1, e - p);
        assert(w.subrange(1, e - p) =~= s.subrange(p + 1, e));
    } else if is_digit(c) {
        lemma_digits_end(s, p + 1);
        let d = digits_end(s, p + 1);
        let e = number_end(s, p + 1);
        if char_at(s, d) == '.' && is_digit(char_at(s, d + 1)) {
            lemma_digits_end(s, d + 1);
            assert forall|j: int| 1 <= j < d - p implies is_digit(w[j]) by {
                assert(w[j] == s[p + j]);
            }
            assert(w[d - p] == '.');
            lemma_digits_end_at(w, 1, d - p);
            assert forall|j: int| d - p + 1 <= j < e - p implies is_digit(w[j]) by {
                assert(w[j] == s[p + j]);
            }
            lemma_digits_end_at(w, d - p + 1, e - p);
            assert(char_at(w, d - p + 1) == s[d + 1]);
        } else {
            assert forall|j: int| 1 <= j < d - p implies is_digit(w[j]) by {
                assert(w[j] == s[p + j]);
            }
            lemma_digits_end_at(w, 1, d - p);
        }
    } else if starts_word(c) {
        lemma_word_end(s, p + 1);
        let e = word_end(s, p + 1);
        assert forall|j: int| 1 <= j < e - p implies is_word_char(w[j]) by {
            assert(w[j] == s[p + j]);
        }
        lemma_word_end_at(w, 1, e - p);
    }
}

proof fn lemma_rescan_from(s: Seq<char>, p: int, line: usize, i: int)
    requires
        scan_from(s, p, line) is Ok,
        0 <= i < scan_from(s, p, line)->Ok_0.len() - 1,
    ensures
        rescans_to(
            scan_from(s, p, line)->Ok_0[i].lexeme,
            scan_from(s, p, line)->Ok_0[i],
        ),
    decreases s.len() - p,
{
    if 0 <= p < s.len() {
        let st = scan_step(s, p, line);
        match st.lexed {
            Lexed::Fail(_) => {},
            Lexed::Skip => {
                if p < st.next <= s.len() {
                    lemma_rescan_from(s, st.next, st.line, i);
                }
            },
            Lexed::Emit(t) => {
                if p < st.next <= s.len() {
                    let rest = scan_from(s, st.next, st.line);
                    if i == 0 {
                        lemma_rescan_step(s, p, line);
                        let w = s.subrange(p, st.next);
                        let st2 = scan_step(w, 0, 1);
                        assert(scan_from(w, w.len() as int, st2.line) == Ok::<
                            Seq<TokenView>,
                            Error,
                        >(seq![eof_token(st2.line)]));
                        assert(t.lexeme == w);
                    } else {
                        lemma_rescan_from(s, st.next, st.line, i - 1);
                        assert(scan_from(s, p, line)->Ok_0[i] == rest->Ok_0[i - 1]);
                    }
                }
            },
        }
    }
}

/// Scanning the lexeme of any token of a successful scan, on its own, gives
/// back one token of the same kind, lexeme and payload, then the end of
/// input. The token lies on the first line, moved down by the newlines of a
/// string literal.
pub proof fn lemma_rescan_lexeme(s: Seq<char>, i: int)
    requires
        scanned(s) is Ok,
        0 <= i < scanned(s)->Ok_0.len() - 1,
    ensures
        rescans_to(scanned(s)->Ok_0[i].lexeme, scanned(s)->Ok_0[i]),
{
    lemma_rescan_from(s, 0, 1, i);
}

/// A literal token of a successful scan, scanned again on its own from its
/// lexeme and parsed, gives a literal tree of the same kind, lexeme and
/// payload: evaluating it again gives the same value.
pub proof fn lemma_reparse_literal(s: Seq<char>, i: int)
    requires
        scanned(s) is Ok,
        0 <= i < scanned(s)->Ok_0.len() - 1,
        literal_kinds().contains(scanned(s)->Ok_0[i].ty),
    ensures
        ({
            let t = scanned(s)->Ok_0[i];
            let us = scanned(t.lexeme)->Ok_0;
            &&& parsed(us) == Ok::<ExprView, Error>(ExprView::Literal(us[0]))
            &&& us[0].ty == t.ty
            &&& us[0].lexeme == t.lexeme
            &&& us[0].literal == t.literal
        }),
{
    lemma_rescan_lexeme(s, i);
    let t = scanned(s)->Ok_0[i];
    let us = scanned(t.lexeme)->Ok_0;
    lemma_literal_alone(us);
}

proof fn lemma_literal_alone(us: Seq<TokenView>)
    requires
        us.len() == 2,
        literal_kinds().contains(us[0].ty),
        us[1].ty == TokenType::Eof,
    ensures
        parsed(us) == Ok::<ExprView, Error>(ExprView::Literal(us[0])),
{
    let k = us[0].ty;
    assert(k == TokenType::False || k == TokenType::True || k == TokenType::Nil || k
        == TokenType::Number || k == TokenType::String) by {
        let j = choose|j: int| 0 <= j < literal_kinds().len() && literal_kinds()[j] == k;
    }
    assert(!level_kinds(0).contains(k)) by {
        if level_kinds(0).contains(k) {
            let j = choose|j: int| 0 <= j < level_kinds(0).len() && level_kinds(0)[j] == k;
        }
    }
    let lit = ExprView::Literal(us[0]);
    assert(parse_primary(us, 0) == Ok::<(ExprView, int), Error>((lit, 1)));
    assert(parse_level(0, us, 0) == Ok::<(ExprView, int), Error>((lit, 1)));
    assert(fold_level(1, us, 1, lit) == Ok::<(ExprView, int), Error>((lit, 1)));
    assert(parse_level(1, us, 0) == Ok::<(ExprView, int), Error>((lit, 1)));
    assert(fold_level(2, us, 1, lit) == Ok::<(ExprView, int), Error>((lit, 1)));
    assert(parse_level(2, us, 0) == Ok::<(ExprView, int), Error>((lit, 1)));
    assert(fold_level(3, us, 1, lit) == Ok::<(ExprView, int), Error>((lit, 1)));
    assert(parse_level(3, us, 0) == Ok::<(ExprView, int), Error>((lit, 1)));
    assert(fold_level(4, us, 1, lit) == Ok::<(ExprView, int), Error>((lit, 1)));
    assert(parse_level(4, us, 0) == Ok::<(ExprView, int), Error>((lit, 1)));
}

/// A parse result with its end position moved by `k`.
pub open spec fn shifted(r: Parsed, k: int) -> Parsed {
    match r {
        Ok((e, p)) => Ok((e, p + k)),
        Err(e) => Err(e),
    }
}

proof fn lemma_progress_primary(ts: Seq<TokenView>, pos: int)
    ensures
        parse_primary(ts, pos) matches Ok((_, p)) ==> p > pos,
    decreases ts.len() - pos, 0nat,
{
    if !check_any(ts, pos, literal_kinds()) && check_any(ts, pos, seq![TokenType::LeftParen]) {
        lemma_progress_level(4, ts, pos + 1);
    }
}

proof fn lemma_progress_level(lvl: nat, ts: Seq<TokenView>, pos: int)
    ensures
        parse_level(lvl, ts, pos) matches Ok((_, p)) ==> p > pos,
    decreases ts.len() - pos, 2 * lvl + 2,
{
    if lvl == 0 {
        if check_any(ts, pos, level_kinds(0)) {
            lemma_progress_level(0, ts, pos + 1);
        } else {
            lemma_progress_primary(ts, pos);
        }
    } else {
        lemma_progress_level((lvl - 1) as nat, ts, pos);
        match parse_level((lvl - 1) as nat, ts, pos) {
            Err(_) => {},
            Ok((left, p)) => {
                if pos <= p <= ts.len() {
                    lemma_progress_fold(lvl, ts, p, left);
                }
            },
        }
    }
}

proof fn lemma_progress_fold(lvl: nat, ts: Seq<TokenView>, pos: int, left: ExprView)
    ensures
        fold_level(lvl, ts, pos, left) matches Ok((_, p)) ==> p >= pos,
    decreases ts.len() - pos, 2 * lvl + 1,
{
    if 1 <= lvl && check_any(ts, pos, level_kinds(lvl)) {
        lemma_progress_level((lvl - 1) as nat, ts, pos + 1);
        match parse_level((lvl - 1) as nat, ts, pos + 1) {
            Err(_) => {},
            Ok((right, p)) => {
                if pos < p <= ts.len() {
                    lemma_progress_fold(
                        lvl,
                        ts,
                        p,
                        ExprView::Binary(Box::new(left), ts[pos], Box::new(right)),
                    );
                }
            },
        }
    }
}

proof fn lemma_shift_facts(lp: TokenView, ts: Seq<TokenView>, pos: int)
    requires
        0 <= pos,
    ensures
        at_end_at(seq![lp] + ts, pos + 1) == at_end_at(ts, pos),
        line_at(seq![lp] + ts, pos + 1) == line_at(ts, pos),
        forall|kinds: Seq<TokenType>|
            check_any(seq![lp] + ts, pos + 1, kinds) == #[trigger] check_any(ts, pos, kinds),
        pos < ts.len() ==> (seq![lp] + ts)[pos + 1] == ts[pos],
{
}

proof fn lemma_shift_primary(lp: TokenView, ts: Seq<TokenView>, pos: int)
    requires
        0 <= pos,
    ensures
        parse_primary(seq![lp] + ts, pos + 1) == shifted(parse_primary(ts, pos), 1),
    decreases ts.len() - pos, 0nat,
{
    let u = seq![lp] + ts;
    lemma_shift_facts(lp, ts, pos);
    if check_any(ts, pos, literal_kinds()) {
    } else if check_any(ts, pos, seq![TokenType::LeftParen]) {
        lemma_shift_level(4, lp, ts, pos + 1);
        lemma_progress_level(4, ts, pos + 1);
        match parse_level(4, ts, pos + 1) {
            Err(_) => {},
            Ok((_, p)) => {
                if p >= 0 {
                    lemma_shift_facts(lp, ts, p);
                }
            },
        }
    }
}

proof fn lemma_shift_level(lvl: nat, lp: TokenView, ts: Seq<TokenView>, pos: int)
    requires
        0 <= pos,
    ensures
        parse_level(lvl, seq![lp] + ts, pos + 1) == shifted(parse_level(lvl, ts, pos), 1),
    decreases ts.len() - pos, 2 * lvl + 2,
{
    lemma_shift_facts(lp, ts, pos);
    if lvl == 0 {
        if check_any(ts, pos, level_kinds(0)) {
            lemma_shift_level(0, lp, ts, pos + 1);
        } else {
            lemma_shift_primary(lp, ts, pos);
        }
    } else {
        lemma_shift_level((lvl - 1) as nat, lp, ts, pos);
        match parse_level((lvl - 1) as nat, ts, pos) {
            Err(_) => {},
            Ok((left, p)) => {
                if pos <= p <= ts.len() {
                    lemma_shift_fold(lvl, lp, ts, p, left);
                }
            },
        }
    }
}

proof fn lemma_shift_fold(lvl: nat, lp: TokenView, ts: Seq<TokenView>, pos: int, left: ExprView)
    requires
        0 <= pos,
    ensures
        fold_level(lvl, seq![lp] + ts, pos + 1, left) == shifted(fold_level(lvl, ts, pos, left), 1),
    decreases ts.len() - pos, 2 * lvl + 1,
{
    lemma_shift_facts(lp, ts, pos);
    if 1 <= lvl && check_any(ts, pos, level_kinds(lvl)) {
        lemma_shift_level((lvl - 1) as nat, lp, ts, pos + 1);
        match parse_level((lvl - 1) as nat, ts, pos + 1) {
            Err(_) => {},
            Ok((right, p)) => {
                if pos < p <= ts.len() {
                    lemma_shift_fold(
                        lvl,
                        lp,
                        ts,
                        p,
                        ExprView::Binary(Box::new(left), ts[pos], Box::new(right)),
                    );
                }
            },
        }
    }
}

/// An opening parenthesis before tokens that parse as one whole expression,
/// with no closing parenthesis before the end of input, fails with the
/// missing-parenthesis error at the line of the end-of-input token.
pub proof fn lemma_unclosed_group(lp: TokenView, es: Seq<TokenView>, eof: TokenView, e: ExprView)
    requires
        lp.ty == TokenType::LeftParen,
        eof.ty == TokenType::Eof,
        parse_level(4, es + seq![eof], 0) == Ok::<(ExprView, int), Error>((e, es.len() as int)),
    ensures
        parsed(seq![lp] + es + seq![eof]) == Err::<ExprView, Error>(
            Error::Syntax { line: eof.line, message: "Expected ')' after expression." },
        ),
{
    let ts = es + seq![eof];
    let u = seq![lp] + ts;
    assert(seq![lp] + es + seq![eof] =~= u);
    lemma_shift_level(4, lp, ts, 0);
    let end = es.len() + 1int;
    assert(u[end] == eof);
    assert(u[0] == lp);
    let err = Err::<(ExprView, int), Error>(
        Error::Syntax { line: eof.line, message: "Expected ')' after expression." },
    );
    assert(!check_any(u, 0, literal_kinds())) by {
        if literal_kinds().contains(TokenType::LeftParen) {
            let j = choose|j: int|
                0 <= j < literal_kinds().len() && literal_kinds()[j] == TokenType::LeftParen;
        }
    }
    assert(check_any(u, 0, seq![TokenType::LeftParen])) by {
        assert(seq![TokenType::LeftParen][0] == TokenType::LeftParen);
    }
    assert(!check_any(u, end, seq![TokenType::RightParen]));
    assert(parse_primary(u, 0) == err);
    assert(!check_any(u, 0, level_kinds(0))) by {
        if level_kinds(0).contains(TokenType::LeftParen) {
            let j = choose|j: int|
                0 <= j < level_kinds(0).len() && level_kinds(0)[j] == TokenType::LeftParen;
        }
    }
    assert(parse_level(0, u, 0) == err);
    assert(parse_level(1, u, 0) == err);
    assert(parse_level(2, u, 0) == err);
    assert(parse_level(3, u, 0) == err);
    assert(parse_level(4, u, 0) == err);
}

proof fn lemma_comment_end_shift(pre: Seq<char>, t: Seq<char>, i: int)
    requires
        0 <= i,
    ensures
        comment_end(pre + t, pre.len() + i) == pre.len() + comment_end(t, i),
    decreases t.len() - i,
{
    if i < t.len() {
        assert((pre + t)[pre.len() + i] == t[i]);
        if t[i] != '\n' {
            lemma_comment_end_shift(pre, t, i + 1);
        }
    }
}

proof fn lemma_string_end_shift(pre: Seq<char>, t: Seq<char>, i: int)
    requires
        0 <= i,
    ensures
        string_end(pre + t, pre.len() + i) == pre.len() + string_end(t, i),
    decreases t.len() - i,
{
    if i < t.len() {
        assert((pre + t)[pre.len() + i] == t[i]);
        if t[i] != '"' {
            lemma_string_end_shift(pre, t, i + 1);
        }
    }
}

proof fn lemma_digits_end_shift(pre: Seq<char>, t: Seq<char>, i: int)
    requires
        0 <= i,
    ensures
        digits_end(pre + t, pre.len() + i) == pre.len() + digits_end(t, i),
    decreases t.len() - i,
{
    if i < t.len() {
        assert((pre + t)[pre.len() + i] == t[i]);
        if is_digit(t[i]) {
            lemma_digits_end_shift(pre, t, i + 1);
        }
    }
}

proof fn lemma_word_end_shift(pre: Seq<char>, t: Seq<char>, i: int)
    requires
        0 <= i,
    ensures
        word_end(pre + t, pre.len() + i) == pre.len() + word_end(t, i),
    decreases t.len() - i,
{
    if i < t.len() {
        assert((pre + t)[pre.len() + i] == t[i]);
        if is_word_char(t[i]) {
            lemma_word_end_shift(pre, t, i + 1);
        }
    }
}

/// One scanning step on a text behind a prefix is the step on the text
/// alone, with its end moved by the prefix's length.
proof fn lemma_step_shift(pre: Seq<char>, t: Seq<char>, p: int, line: usize)
    requires
        0 <= p < t.len(),
    ensures
        ({
            let a = scan_step(pre + t, pre.len() + p, line);
            let b = scan_step(t, p, line);
            &&& a.lexed == b.lexed
            &&& a.line == b.line
            &&& !(b.lexed is Fail) ==> a.next == pre.len() + b.next
        }),
{
    let s = pre + t;
    let k = pre.len() as int;
    assert forall|x: int, y: int| 0 <= x <= y <= t.len() implies s.subrange(k + x, k + y)
        == #[trigger] t.subrange(x, y) by {
        assert(s.subrange(k + x, k + y) =~= t.subrange(x, y));
    }
    assert forall|i: int| 0 <= i implies #[trigger] char_at(s, k + i) == char_at(t, i) by {
        if i < t.len() {
            assert(s[k + i] == t[i]);
        }
    }
    assert(char_at(s, k + p) == t[p]);
    assert(char_at(s, k + p + 1) == char_at(t, p + 1));
    let c = t[p];
    if single_kind(c) is Some || pair_kinds(c) is Some {
    } else if c == '/' {
        lemma_comment_end_shift(pre, t, p + 2);
    } else if c == '"' {
        lemma_string_end_shift(pre, t, p + 1);
        lemma_string_end(t, p + 1);
    } else if is_digit(c) {
        lemma_digits_end_shift(pre, t, p + 1);
        lemma_digits_end(t, p + 1);
        let d = digits_end(t, p + 1);
        assert(char_at(s, k + d) == char_at(t, d));
        assert(char_at(s, k + d + 1) == char_at(t, d + 1));
        if char_at(t, d) == '.' && is_digit(char_at(t, d + 1)) {
            lemma_digits_end_shift(pre, t, d + 1);
            lemma_digits_end(t, d + 1);
        }
    } else if starts_word(c) {
        lemma_word_end_shift(pre, t, p + 1);
        lemma_word_end(t, p + 1);
    }
}

proof fn lemma_scan_shift(pre: Seq<char>, t: Seq<char>, p: int, line: usize)
    requires
        0 <= p,
    ensures
        scan_from(pre + t, pre.len() + p, line) == scan_from(t, p, line),
    decreases t.len() - p,
{
    if p < t.len() {
        lemma_step_shift(pre, t, p, line);
        let b = scan_step(t, p, line);
        if !(b.lexed is Fail) && p < b.next <= t.len() {
            lemma_scan_shift(pre, t, b.next, b.line);
        }
    }
}

proof fn lemma_count_newlines_len(s: Seq<char>)
    ensures
        count_newlines(s) <= s.len(),
    decreases s.len(),
{
    if s.len() > 0 {
        lemma_count_newlines_len(s.drop_last());
    }
}

/// A token one line further down.
pub open spec fn down(t: TokenView) -> TokenView {
    TokenView { ty: t.ty, lexeme: t.lexeme, literal: t.literal, line: (t.line + 1) as usize }
}

/// An error one line further down.
pub open spec fn error_down(e: Error) -> Error {
    match e {
        Error::Syntax { line, message } => Error::Syntax { line: (line + 1) as usize, message },
        Error::TypeError { line, message } => Error::TypeError {
            line: (line + 1) as usize,
            message,
        },
    }
}

pub open spec fn downs(ts: Seq<TokenView>) -> Seq<TokenView> {
    ts.map_values(|t: TokenView| down(t))
}

/// A scan result with every line one further down.
pub open spec fn lines_down(r: Result<Seq<TokenView>, Error>) -> Result<Seq<TokenView>, Error> {
    match r {
        Ok(ts) => Ok(downs(ts)),
        Err(e) => Err(error_down(e)),
    }
}

proof fn lemma_step_down(t: Seq<char>, p: int, line: usize)
    requires
        0 <= p < t.len(),
        line + (t.len() - p) + 1 < usize::MAX,
    ensures
        ({
            let a = scan_step(t, p, (line + 1) as usize);
            let b = scan_step(t, p, line);
            &&& a.next == b.next
            &&& a.line == (b.line + 1) as usize
            &&& match b.lexed {
                Lexed::Emit(x) => a.lexed == Lexed::Emit(down(x)),
                Lexed::Skip => a.lexed == Lexed::Skip,
                Lexed::Fail(e) => a.lexed == Lexed::Fail(error_down(e)),
            }
            &&& !(b.lexed is Fail) && p < b.next ==> b.line + (t.len() - b.next) <= line + (
            t.len() - p)
        }),
{
    let c = t[p];
    if single_kind(c) is Some || pair_kinds(c) is Some || c == '/' {
    } else if c == '"' {
        lemma_string_end(t, p + 1);
        let e = string_end(t, p + 1);
        if e < t.len() {
            lemma_count_newlines_len(t.subrange(p + 1, e));
        }
    } else if is_digit(c) {
    } else if starts_word(c) {
    }
}

proof fn lemma_scan_down(t: Seq<char>, p: int, line: usize)
    requires
        0 <= p,
        line + (t.len() - p) + 1 < usize::MAX,
    ensures
        scan_from(t, p, (line + 1) as usize) == lines_down(scan_from(t, p, line)),
    decreases t.len() - p,
{
    if p >= t.len() {
        assert(downs(seq![eof_token(line)]) =~= seq![
            eof_token((line + 1) as usize),
        ]);
    } else {
        lemma_step_down(t, p, line);
        let b = scan_step(t, p, line);
        assert(downs(seq![]) =~= seq![]);
        if !(b.lexed is Fail) && p < b.next <= t.len() {
            lemma_scan_down(t, b.next, b.line);
            let rest = scan_from(t, b.next, b.line);
            if let Lexed::Emit(x) = b.lexed {
                if let Ok(ts) = rest {
                    assert(downs(seq![x] + ts) =~= seq![down(x)] + downs(ts));
                }
            }
        }
    }
}

/// A line comment and its newline in front of a text add no token: the text
/// scans as it does alone, every token and error one line further down.
pub proof fn lemma_comment_line(c: Seq<char>, t: Seq<char>)
    requires
        !c.contains('\n'),
        c.len() + t.len() + 5 < usize::MAX,
    ensures
        scanned(seq!['/', '/'] + c + seq!['\n'] + t) == lines_down(scanned(t)),
{
    let pre = seq!['/', '/'] + c + seq!['\n'];
    let s = pre + t;
    let n = c.len() as int;
    assert forall|j: int| 0 <= j < n implies c[j] != '\n' by {
        if c[j] == '\n' {
            assert(c.contains('\n'));
        }
    }
    assert forall|j: int| 2 <= j < 2 + n implies s[j] != '\n' by {
        assert(s[j] == c[j - 2]);
    }
    assert(s[2 + n] == '\n');
    assert(s[0] == '/' && s[1] == '/');
    lemma_comment_end_at(s, 2, 2 + n);
    lemma_scan_shift(pre, t, 0, 2);
    lemma_scan_down(t, 0, 1);
    assert(scan_from(s, 2 + n, 1) == scan_from(s, 3 + n, 2));
    assert(scan_from(s, 0, 1) == scan_from(s, 2 + n, 1));
}

proof fn lemma_comment_end_at(w: Seq<char>, i: int, k: int)
    requires
        0 <= i <= k < w.len(),
        forall|j: int| i <= j < k ==> w[j] != '\n',
        w[k] == '\n',
    ensures
        comment_end(w, i) == k,
    decreases k - i,
{
    if i < k {
        lemma_comment_end_at(w, i + 1, k);
    }
}

} // verus!
