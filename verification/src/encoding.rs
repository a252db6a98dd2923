//! The categorical encoder: one token of a record becomes a signed code.

use crate::error::ShapeError;
use crate::matrix::{cells_of, is_table, FeatureMatrix};
use vstd::prelude::*;
use vstd::string::*;

verus! {

/// The code of an affirmative token.
pub const AFFIRMATIVE: i8 = 1;

/// The code of a negative token.
pub const NEGATIVE: i8 = -1;

/// The code of every other token, the markers of a missing or abstaining
/// answer among them.
pub const NEUTRAL: i8 = 0;

/// White space in the sense of Unicode's `White_Space` property.
pub open spec fn is_blank(c: char) -> bool {
    let n = c as u32;
    ||| 0x09 <= n <= 0x0D
    ||| n == 0x20
    ||| n == 0x85
    ||| n == 0xA0
    ||| n == 0x1680
    ||| 0x2000 <= n <= 0x200A
    ||| n == 0x2028
    ||| n == 0x2029
    ||| n == 0x202F
    ||| n == 0x205F
    ||| n == 0x3000
}

/// `c` is the lower-case letter `lower`, or its ASCII capital.
pub open spec fn folds_to(c: char, lower: char) -> bool {
    c == lower || (0x41 <= c as u32 <= 0x5A && c as u32 + 32 == lower as u32)
}

/// `s` spells the lower-case `word`, letter case aside.
pub open spec fn same_word(s: Seq<char>, word: Seq<char>) -> bool {
    &&& s.len() == word.len()
    &&& forall|i: int| 0 <= i < s.len() ==> folds_to(#[trigger] s[i], word[i])
}

/// The number of blank characters that `s` begins with.
pub open spec fn leading_blanks(s: Seq<char>) -> nat
    decreases s.len(),
{
    if s.len() > 0 && is_blank(s[0]) {
        1 + leading_blanks(s.drop_first())
    } else {
        0
    }
}

/// The number of blank characters that `s` ends with.
pub open spec fn trailing_blanks(s: Seq<char>) -> nat
    decreases s.len(),
{
    if s.len() > 0 && is_blank(s.last()) {
        1 + trailing_blanks(s.drop_last())
    } else {
        0
    }
}

/// `s` without the blank characters at either end.
pub open spec fn trimmed(s: Seq<char>) -> Seq<char> {
    if leading_blanks(s) == s.len() {
        Seq::empty()
    } else {
        s.subrange(leading_blanks(s) as int, s.len() - trailing_blanks(s))
    }
}

/// The tokens that count as a yes.
pub open spec fn is_affirmative(t: Seq<char>) -> bool {
    same_word(t, "y"@) || same_word(t, "republican"@)
}

/// The tokens that count as a no.
pub open spec fn is_negative(t: Seq<char>) -> bool {
    same_word(t, "n"@) || same_word(t, "democrat"@)
}

/// The code of a raw token: blanks at either end and letter case do not
/// count.
pub open spec fn code_of(token: Seq<char>) -> int {
    let t = trimmed(token);
    if is_affirmative(t) {
        1
    } else if is_negative(t) {
        -1
    } else {
        0
    }
}

/// The codes of one record, token by token.
pub open spec fn record_codes(tokens: Seq<String>) -> Seq<i8> {
    Seq::new(tokens.len(), |j: int| code_of(tokens[j]@) as i8)
}

/// The codes of a whole table of tokens, record by record.
pub open spec fn table_codes(records: Seq<Vec<String>>) -> Seq<Seq<i8>> {
    Seq::new(records.len(), |i: int| record_codes(records[i]@))
}

/// A run of `a` blanks followed by a non-blank, or by the end, is the whole
/// leading run.
pub proof fn lemma_leading_blanks(s: Seq<char>, a: int)
    requires
        0 <= a <= s.len(),
        forall|j: int| 0 <= j < a ==> is_blank(#[trigger] s[j]),
        a < s.len() ==> !is_blank(s[a]),
    ensures
        leading_blanks(s) == a,
    decreases a,
{
    if a > 0 {
        let rest = s.drop_first();
        assert forall|j: int| 0 <= j < a - 1 implies is_blank(#[trigger] rest[j]) by {
            assert(rest[j] == s[j + 1]);
        }
        if a - 1 < rest.len() {
            assert(rest[a - 1] == s[a]);
        }
        lemma_leading_blanks(rest, a - 1);
    }
}

/// A non-blank, or the start, followed by blanks up to the end bounds the
/// whole trailing run.
pub proof fn lemma_trailing_blanks(s: Seq<char>, b: int)
    requires
        0 <= b <= s.len(),
        forall|j: int| b <= j < s.len() ==> is_blank(#[trigger] s[j]),
        b > 0 ==> !is_blank(s[b - 1]),
    ensures
        trailing_blanks(s) == s.len() - b,
    decreases s.len() - b,
{
    if b < s.len() {
        let rest = s.drop_last();
        assert forall|j: int| b <= j < rest.len() implies is_blank(#[trigger] rest[j]) by {
            assert(rest[j] == s[j]);
        }
        if b > 0 {
            assert(rest[b - 1] == s[b - 1]);
        }
        lemma_trailing_blanks(rest, b);
    }
}

/// The leading run of blanks is made of blanks, and ends at a non-blank
/// or at the end.
pub proof fn lemma_leading_run(s: Seq<char>)
    ensures
        leading_blanks(s) <= s.len(),
        forall|j: int| 0 <= j < leading_blanks(s) ==> is_blank(#[trigger] s[j]),
        leading_blanks(s) < s.len() ==> !is_blank(s[leading_blanks(s) as int]),
    decreases s.len(),
{
    if s.len() > 0 && is_blank(s[0]) {
        let rest = s.drop_first();
        lemma_leading_run(rest);
        assert forall|j: int| 0 <= j < leading_blanks(s) implies is_blank(#[trigger] s[j]) by {
            if j > 0 {
                assert(s[j] == rest[j - 1]);
            }
        }
        if leading_blanks(s) < s.len() {
            assert(s[leading_blanks(s) as int] == rest[leading_blanks(rest) as int]);
        }
    }
}

/// The trailing run of blanks is made of blanks, and begins after a
/// non-blank or at the start.
pub proof fn lemma_trailing_run(s: Seq<char>)
    ensures
        trailing_blanks(s) <= s.len(),
        forall|j: int| s.len() - trailing_blanks(s) <= j < s.len() ==> is_blank(#[trigger] s[j]),
        trailing_blanks(s) < s.len() ==> !is_blank(s[s.len() - trailing_blanks(s) - 1]),
    decreases s.len(),
{
    if s.len() > 0 && is_blank(s.last()) {
        let rest = s.drop_last();
        lemma_trailing_run(rest);
        assert forall|j: int| s.len() - trailing_blanks(s) <= j < s.len() implies is_blank(
            #[trigger] s[j],
        ) by {
            if j < rest.len() {
                assert(s[j] == rest[j]);
            }
        }
        if trailing_blanks(s) < s.len() {
            assert(s[s.len() - trailing_blanks(s) - 1] == rest[rest.len() - trailing_blanks(rest)
                - 1]);
        }
    }
}

/// The trimmed token is the part of the token between two positions: all
/// before the first and all from the second on is blank, and the part does
/// not begin or end with a blank.
pub proof fn lemma_trimmed_is(s: Seq<char>, a: int, b: int)
    requires
        0 <= a <= b <= s.len(),
        forall|j: int| 0 <= j < a ==> is_blank(#[trigger] s[j]),
        forall|j: int| b <= j < s.len() ==> is_blank(#[trigger] s[j]),
        a < b ==> !is_blank(s[a]) && !is_blank(s[b - 1]),
    ensures
        trimmed(s) == s.subrange(a, b),
{
    if a < b {
        lemma_leading_blanks(s, a);
        lemma_trailing_blanks(s, b);
    } else {
        assert forall|j: int| 0 <= j < s.len() implies is_blank(#[trigger] s[j]) by {
            if j >= b {
            }
        }
        lemma_leading_blanks(s, s.len() as int);
        assert(s.subrange(a, b) =~= Seq::<char>::empty());
    }
}

/// Blanks around a token do not count: with any blanks before it and any
/// after it, the token has the code it has without them.
pub proof fn lemma_code_ignores_padding(left: Seq<char>, token: Seq<char>, right: Seq<char>)
    requires
        forall|j: int| 0 <= j < left.len() ==> is_blank(#[trigger] left[j]),
        forall|j: int| 0 <= j < right.len() ==> is_blank(#[trigger] right[j]),
    ensures
        trimmed(left + token + right) == trimmed(token),
        code_of(left + token + right) == code_of(token),
{
    let padded = left + token + right;
    lemma_leading_run(token);
    lemma_trailing_run(token);
    let lead = leading_blanks(token) as int;
    if lead == token.len() {
        assert forall|j: int| 0 <= j < padded.len() implies is_blank(#[trigger] padded[j]) by {
            if j < left.len() {
                assert(padded[j] == left[j]);
            } else if j < left.len() + token.len() {
                assert(padded[j] == token[j - left.len()]);
            } else {
                assert(padded[j] == right[j - left.len() - token.len()]);
            }
        }
        lemma_leading_blanks(padded, padded.len() as int);
    } else {
        let a = left.len() + lead;
        let b = left.len() + token.len() - trailing_blanks(token);
        assert(!is_blank(token[lead]));
        if trailing_blanks(token) == token.len() {
            assert(is_blank(token[lead]));
        }
        assert forall|j: int| 0 <= j < a implies is_blank(#[trigger] padded[j]) by {
            if j < left.len() {
                assert(padded[j] == left[j]);
            } else {
                assert(padded[j] == token[j - left.len()]);
            }
        }
        assert forall|j: int| b <= j < padded.len() implies is_blank(#[trigger] padded[j]) by {
            if j < left.len() + token.len() {
                assert(padded[j] == token[j - left.len()]);
            } else {
                assert(padded[j] == right[j - left.len() - token.len()]);
            }
        }
        assert(padded[a] == token[lead]);
        assert(padded[b - 1] == token[token.len() - trailing_blanks(token) - 1]);
        assert(lead < token.len() - trailing_blanks(token)) by {
            if lead >= token.len() - trailing_blanks(token) {
                assert(is_blank(token[lead]));
            }
        }
        lemma_trimmed_is(padded, a, b);
        assert(padded.subrange(a, b) =~= token.subrange(
            lead,
            token.len() - trailing_blanks(token),
        ));
    }
}

/// Two characters that are one letter: the same character, or an ASCII
/// capital and its small letter.
pub open spec fn same_letter(c: char, d: char) -> bool {
    ||| c == d
    ||| 0x41 <= c as u32 <= 0x5A && c as u32 + 32 == d as u32
    ||| 0x41 <= d as u32 <= 0x5A && d as u32 + 32 == c as u32
}

/// No character of `word` is an ASCII capital.
pub open spec fn has_no_capital(word: Seq<char>) -> bool {
    forall|i: int| 0 <= i < word.len() ==> !(0x41 <= (#[trigger] word[i]) as u32 <= 0x5A)
}

/// The four words that the encoder knows are written without capitals.
pub proof fn lemma_words_have_no_capital()
    ensures
        has_no_capital("y"@),
        has_no_capital("republican"@),
        has_no_capital("n"@),
        has_no_capital("democrat"@),
{
    reveal_strlit("y");
    reveal_strlit("republican");
    reveal_strlit("n");
    reveal_strlit("democrat");
}

/// A character that is one letter with another folds to the small letters
/// that the other folds to.
proof fn lemma_fold_same_letter(c: char, d: char, lower: char)
    requires
        same_letter(c, d),
        folds_to(c, lower),
        !(0x41 <= lower as u32 <= 0x5A),
    ensures
        folds_to(d, lower),
{
}

/// Spelling a word without capitals does not depend on the letter case of
/// what spells it.
pub proof fn lemma_same_word_ignores_case(s: Seq<char>, t: Seq<char>, word: Seq<char>)
    requires
        s.len() == t.len(),
        forall|i: int| 0 <= i < s.len() ==> same_letter(#[trigger] s[i], t[i]),
        has_no_capital(word),
    ensures
        same_word(s, word) == same_word(t, word),
{
    if s.len() == word.len() {
        if same_word(s, word) {
            assert forall|i: int| 0 <= i < t.len() implies folds_to(#[trigger] t[i], word[i]) by {
                assert(same_letter(s[i], t[i]));
                assert(folds_to(s[i], word[i]));
                lemma_fold_same_letter(s[i], t[i], word[i]);
            }
        }
        if same_word(t, word) {
            assert forall|i: int| 0 <= i < s.len() implies folds_to(#[trigger] s[i], word[i]) by {
                assert(same_letter(s[i], t[i]));
                assert(folds_to(t[i], word[i]));
                lemma_fold_same_letter(t[i], s[i], word[i]);
            }
        }
    }
}

/// Letter case does not count: two tokens that differ only in the case of
/// ASCII letters have the same code.
pub proof fn lemma_code_ignores_case(s: Seq<char>, t: Seq<char>)
    requires
        s.len() == t.len(),
        forall|i: int| 0 <= i < s.len() ==> same_letter(#[trigger] s[i], t[i]),
    ensures
        code_of(s) == code_of(t),
{
    lemma_leading_run(s);
    lemma_trailing_run(s);
    let a = leading_blanks(s) as int;
    assert forall|j: int| 0 <= j < s.len() implies (is_blank(#[trigger] t[j]) == is_blank(
        s[j],
    )) by {
        assert(same_letter(s[j], t[j]));
    }
    if a == s.len() {
        lemma_leading_blanks(t, a);
    } else {
        let b = s.len() - trailing_blanks(s);
        assert(!is_blank(s[a]));
        assert(a < b) by {
            if a >= b {
                assert(is_blank(s[a]));
            }
        }
        lemma_trimmed_is(s, a, b);
        lemma_trimmed_is(t, a, b);
    }
    let ts = trimmed(s);
    let tt = trimmed(t);
    assert(ts.len() == tt.len());
    assert forall|i: int| 0 <= i < ts.len() implies same_letter(#[trigger] ts[i], tt[i]) by {
        assert(ts[i] == s[a + i]);
        assert(tt[i] == t[a + i]);
        assert(same_letter(s[a + i], t[a + i]));
    }
    lemma_words_have_no_capital();
    lemma_same_word_ignores_case(ts, tt, "y"@);
    lemma_same_word_ignores_case(ts, tt, "republican"@);
    lemma_same_word_ignores_case(ts, tt, "n"@);
    lemma_same_word_ignores_case(ts, tt, "democrat"@);
}

fn char_is_blank(c: char) -> (b: bool)
    ensures
        b == is_blank(c),
{
    let n: u32 = c as u32;
    (0x09 <= n && n <= 0x0D) || n == 0x20 || n == 0x85 || n == 0xA0 || n == 0x1680 || (0x2000 <= n
        && n <= 0x200A) || n == 0x2028 || n == 0x2029 || n == 0x202F || n == 0x205F || n == 0x3000
}

fn char_folds_to(c: char, lower: char) -> (b: bool)
    ensures
        b == folds_to(c, lower),
{
    let n: u32 = c as u32;
    let m: u32 = lower as u32;
    n == m || (0x41 <= n && n <= 0x5A && n + 32 == m)
}

/// Whether the characters of `token` from `from` up to `to` spell `word`.
fn range_is_word(token: &str, from: usize, to: usize, word: &str) -> (yes: bool)
    requires
        from <= to <= token@.len(),
    ensures
        yes == same_word(token@.subrange(from as int, to as int), word@),
{
    let m: usize = word.unicode_len();
    if to - from != m {
        return false;
    }
    let ghost part = token@.subrange(from as int, to as int);
    let mut i: usize = 0;
    while i < m
        invariant
            i <= m,
            m == word@.len(),
            from + m == to,
            to <= token@.len(),
            part == token@.subrange(from as int, to as int),
            forall|j: int| 0 <= j < i ==> folds_to(#[trigger] part[j], word@[j]),
        decreases m - i,
    {
        let c = token.get_char(from + i);
        let w = word.get_char(i);
        if !char_folds_to(c, w) {
            assert(part[i as int] == c);
            return false;
        }
        assert(part[i as int] == c);
        i += 1;
    }
    true
}

/// Encodes one raw token. Every token has a code: a token that is neither
/// a yes nor a no is neutral.
pub fn encode(token: &str) -> (code: i8)
    ensures
        code == code_of(token@),
        code == AFFIRMATIVE || code == NEGATIVE || code == NEUTRAL,
{
    let n: usize = token.unicode_len();
    let mut a: usize = 0;
    while a < n && char_is_blank(token.get_char(a))
        invariant
            a <= n,
            n == token@.len(),
            forall|j: int| 0 <= j < a ==> is_blank(#[trigger] token@[j]),
        decreases n - a,
    {
        a += 1;
    }
    let mut b: usize = n;
    while b > a && char_is_blank(token.get_char(b - 1))
        invariant
            a <= b <= n,
            n == token@.len(),
            forall|j: int| b <= j < n ==> is_blank(#[trigger] token@[j]),
        decreases b,
    {
        b -= 1;
    }
    proof {
        lemma_leading_blanks(token@, a as int);
        if a < n {
            lemma_trailing_blanks(token@, b as int);
        } else {
            assert(token@.subrange(a as int, b as int) =~= Seq::<char>::empty());
        }
        assert(trimmed(token@) == token@.subrange(a as int, b as int));
    }
    if range_is_word(token, a, b, "y") || range_is_word(token, a, b, "republican") {
        AFFIRMATIVE
    } else if range_is_word(token, a, b, "n") || range_is_word(token, a, b, "democrat") {
        NEGATIVE
    } else {
        NEUTRAL
    }
}

/// Encodes one record, token by token.
pub fn encode_record(tokens: &Vec<String>) -> (codes: Vec<i8>)
    ensures
        codes@ == record_codes(tokens@),
{
    let m: usize = tokens.len();
    let mut codes: Vec<i8> = Vec::new();
    let mut j: usize = 0;
    while j < m
        invariant
            j <= m,
            m == tokens@.len(),
            codes@ == record_codes(tokens@).take(j as int),
        decreases m - j,
    {
        let code = encode(tokens[j].as_str());
        codes.push(code);
        proof {
            assert(record_codes(tokens@).take(j + 1) =~= record_codes(tokens@).take(
                j as int,
            ).push(code));
        }
        j += 1;
    }
    proof {
        assert(record_codes(tokens@).take(m as int) =~= record_codes(tokens@));
    }
    codes
}

/// Encodes a table of raw tokens into a matrix of codes. The records must
/// form a table: at least one, and all of one length.
pub fn encode_table(records: &Vec<Vec<String>>) -> (r: Result<FeatureMatrix<i8>, ShapeError>)
    ensures
        match r {
            Ok(m) => is_table(table_codes(records@)) && m@ == table_codes(records@),
            Err(ShapeError::EmptyTable) => records@.len() == 0,
            Err(ShapeError::RaggedTable) => records@.len() > 0 && !is_table(
                table_codes(records@),
            ),
            Err(_) => false,
        },
{
    let n: usize = records.len();
    let mut rows: Vec<Vec<i8>> = Vec::new();
    let mut i: usize = 0;
    while i < n
        invariant
            i <= n,
            n == records@.len(),
            cells_of(rows@) == table_codes(records@).take(i as int),
        decreases n - i,
    {
        let codes = encode_record(&records[i]);
        let ghost before = rows@;
        rows.push(codes);
        proof {
            assert(cells_of(rows@) =~= cells_of(before).push(codes@));
            assert(table_codes(records@).take(i + 1) =~= table_codes(records@).take(
                i as int,
            ).push(codes@));
        }
        i += 1;
    }
    proof {
        assert(table_codes(records@).take(n as int) =~= table_codes(records@));
    }
    FeatureMatrix::from_rows(rows)
}

} // verus!
