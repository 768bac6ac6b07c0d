//! The query text wrapper, phrase extraction and the per-segment boolean
//! tokenizer.

use vstd::prelude::*;

use crate::condition::{simplify_spec, CondModel, Condition, Operator};
use crate::text::{
    blank_spec, chars_blank, chars_string, copy_range, digit_char, digits_spec, digits_val,
    find_char, find_idx, is_digit_char, is_letter_a, is_letter_d, is_letter_n,
    is_letter_o, is_letter_r, last_non_space, last_non_space_exec, lemma_find_idx,
    lemma_skip_digits, lemma_skip_non_spaces, lemma_skip_spaces, letter_a, letter_d, letter_n,
    letter_o, letter_r, parse_usize, skip_digits, skip_digits_exec, skip_non_spaces,
    skip_non_spaces_exec, skip_spaces, skip_spaces_exec, str_blank, str_chars, to_digits,
};

verus! {

/// A search query, or any fragment of one, as immutable text.
#[derive(Debug, PartialEq, Eq)]
pub struct Query(String);

impl View for Query {
    type V = Seq<char>;

    closed spec fn view(&self) -> Seq<char> {
        self.0@
    }
}

impl Clone for Query {
    /// A copy with the same text.
    fn clone(&self) -> (res: Self)
        ensures
            res@ == self@,
    {
        Query(self.0.clone())
    }
}

/// The views of a list of queries, in order.
pub open spec fn queries_view(qs: Seq<Query>) -> Seq<Seq<char>> {
    Seq::new(qs.len(), |i: int| qs[i]@)
}

/// A full-width quote becomes the ASCII one; everything else is unchanged.
pub open spec fn quote_norm_char(c: char) -> char {
    if c == '\u{201D}' {
        '"'
    } else {
        c
    }
}

/// Full-width parentheses and the ideographic space become their ASCII
/// equivalents; everything else is unchanged.
pub open spec fn sym_norm_char(c: char) -> char {
    if c == '\u{FF08}' {
        '('
    } else if c == '\u{FF09}' {
        ')'
    } else if c == '\u{3000}' {
        ' '
    } else {
        c
    }
}

/// `s` with every full-width quote replaced by the ASCII one.
pub open spec fn norm_quotes_spec(s: Seq<char>) -> Seq<char> {
    Seq::new(s.len(), |i: int| quote_norm_char(s[i]))
}

/// `s` with full-width parentheses and ideographic spaces replaced by their
/// ASCII equivalents.
pub open spec fn norm_syms_spec(s: Seq<char>) -> Seq<char> {
    Seq::new(s.len(), |i: int| sym_norm_char(s[i]))
}

/// `s` with every occurrence of `c` removed.
pub open spec fn strip_char_spec(s: Seq<char>, c: char) -> Seq<char>
    decreases s,
{
    if s.len() == 0 {
        Seq::empty()
    } else {
        strip_char_spec(s.drop_last(), c) + (if s.last() == c {
            seq![]
        } else {
            seq![s.last()]
        })
    }
}

/// Output of one phrase-extraction sweep: the rewritten text and the table
/// of extracted phrase contents, in order.
pub struct ScanOut {
    pub out: Seq<char>,
    pub entries: Seq<Seq<char>>,
}

/// How many characters of pattern prefix precede a phrase body: the `-"` of
/// a negated phrase or the lone `"` of a plain one.
pub open spec fn phrase_start(neg: bool) -> int {
    if neg {
        2
    } else {
        1
    }
}

/// A quoted span (negated when `neg`) begins exactly at position `p`.
pub open spec fn phrase_match_at(s: Seq<char>, p: int, neg: bool) -> bool {
    if neg {
        p + 1 < s.len() && s[p] == '-' && s[p + 1] == '"' && find_idx(s, p + 2, '"') >= 0
    } else {
        p < s.len() && s[p] == '"' && find_idx(s, p + 1, '"') >= 0
    }
}

/// The placeholder token written in place of the `k`-th extracted phrase:
/// ` ”NPK:k” ` for a negated phrase, ` ”PK:k” ` for a plain one.
pub open spec fn placeholder_seq(neg: bool, k: nat) -> Seq<char> {
    (if neg {
        seq![' ', '\u{201D}', 'N', 'P', 'K', ':']
    } else {
        seq![' ', '\u{201D}', 'P', 'K', ':']
    }) + digits_spec(k) + seq!['\u{201D}', ' ']
}

/// One left-to-right sweep from position `p`, with `k` phrases already in
/// the table: every quoted (or negated-quoted) span whose content is not
/// blank becomes a placeholder and a table entry; blank spans are deleted.
pub open spec fn phrase_scan_from(s: Seq<char>, p: int, neg: bool, k: nat) -> ScanOut
    decreases s.len() - p,
    via phrase_scan_from_dec
{
    if p < 0 || p >= s.len() {
        ScanOut { out: Seq::empty(), entries: Seq::empty() }
    } else if phrase_match_at(s, p, neg) {
        let st = p + phrase_start(neg);
        let j = find_idx(s, st, '"');
        let content = s.subrange(st, j);
        if blank_spec(content) {
            phrase_scan_from(s, j + 1, neg, k)
        } else {
            let tail = phrase_scan_from(s, j + 1, neg, (k + 1) as nat);
            ScanOut {
                out: placeholder_seq(neg, (k + 1) as nat) + tail.out,
                entries: seq![content] + tail.entries,
            }
        }
    } else {
        let tail = phrase_scan_from(s, p + 1, neg, k);
        ScanOut { out: seq![s[p]] + tail.out, entries: tail.entries }
    }
}

#[via_fn]
proof fn phrase_scan_from_dec(s: Seq<char>, p: int, neg: bool, k: nat) {
    if 0 <= p < s.len() && phrase_match_at(s, p, neg) {
        lemma_find_idx(s, p + phrase_start(neg), '"');
    }
}

/// Result of phrase extraction: the rewritten text and the two phrase
/// tables.
pub struct Extracted {
    pub text: Seq<char>,
    pub npk: Seq<Seq<char>>,
    pub pk: Seq<Seq<char>>,
}

/// Phrase extraction: first the negated-phrase sweep, then the plain-phrase
/// sweep over its output.  A dangling unpaired quote never delimits a
/// phrase and stays in the text as an ordinary character.
pub open spec fn extract_spec(s: Seq<char>) -> Extracted {
    let a = phrase_scan_from(s, 0, true, 0);
    let b = phrase_scan_from(a.out, 0, false, 0);
    Extracted { text: b.out, npk: a.entries, pk: b.entries }
}

/// An `AND` operator token, surrounded by at least one space on each side,
/// begins exactly at position `p` (at the first of its leading spaces).
pub open spec fn and_match_at(s: Seq<char>, p: int) -> bool {
    p < s.len() && s[p] == ' ' && {
        let q = skip_spaces(s, p);
        q + 3 < s.len() && is_letter_a(s[q]) && is_letter_n(s[q + 1]) && is_letter_d(s[q + 2])
            && s[q + 3] == ' '
    }
}

/// One sweep replacing every spaced `AND` token, together with the spaces
/// around it, by a single space: explicit `AND` means plain adjacency.
pub open spec fn and_scan_from(s: Seq<char>, p: int) -> Seq<char>
    decreases s.len() - p,
    via and_scan_from_dec
{
    if p < 0 || p >= s.len() {
        Seq::empty()
    } else if and_match_at(s, p) {
        let q = skip_spaces(s, p);
        let b = skip_spaces(s, q + 3);
        seq![' '] + and_scan_from(s, b)
    } else {
        seq![s[p]] + and_scan_from(s, p + 1)
    }
}

#[via_fn]
proof fn and_scan_from_dec(s: Seq<char>, p: int) {
    if 0 <= p < s.len() && and_match_at(s, p) {
        lemma_skip_spaces(s, p);
        lemma_skip_spaces(s, skip_spaces(s, p) + 3);
    }
}

/// The segment consists of a single `OR` token with optional spaces around
/// it.
pub open spec fn only_or_spec(s: Seq<char>) -> bool {
    let a = skip_spaces(s, 0);
    a + 1 < s.len() && is_letter_o(s[a]) && is_letter_r(s[a + 1]) && skip_spaces(s, a + 2)
        == s.len()
}

/// The segment begins with an `OR` token followed by at least one space.
pub open spec fn starts_or_spec(s: Seq<char>) -> bool {
    let a = skip_spaces(s, 0);
    a + 2 < s.len() && is_letter_o(s[a]) && is_letter_r(s[a + 1]) && s[a + 2] == ' '
}

/// The segment ends with an `OR` token preceded by at least one space.
pub open spec fn ends_or_spec(s: Seq<char>) -> bool {
    let b = last_non_space(s);
    b >= 2 && is_letter_o(s[b - 1]) && is_letter_r(s[b]) && s[b - 2] == ' '
}

/// An `OR` separator (space, `OR`, space) begins exactly at position `p`.
pub open spec fn or_match_at(s: Seq<char>, p: int) -> bool {
    p < s.len() && s[p] == ' ' && {
        let q = skip_spaces(s, p);
        q + 2 < s.len() && is_letter_o(s[q]) && is_letter_r(s[q + 1]) && s[q + 2] == ' '
    }
}

/// Split on `OR` separators from position `p`: the chunks of text between
/// them, in order, with empty chunks kept.
pub open spec fn or_split_from(s: Seq<char>, p: int) -> Seq<Seq<char>>
    decreases s.len() - p,
    via or_split_from_dec
{
    if p < 0 || p >= s.len() {
        seq![Seq::<char>::empty()]
    } else if or_match_at(s, p) {
        let q = skip_spaces(s, p);
        let t = skip_spaces(s, q + 2);
        seq![Seq::<char>::empty()] + or_split_from(s, t)
    } else {
        let tail = or_split_from(s, p + 1);
        seq![seq![s[p]] + tail[0]] + tail.drop_first()
    }
}

#[via_fn]
proof fn or_split_from_dec(s: Seq<char>, p: int) {
    if 0 <= p < s.len() && or_match_at(s, p) {
        lemma_skip_spaces(s, p);
        lemma_skip_spaces(s, skip_spaces(s, p) + 2);
    }
}

/// The split always yields at least one chunk.
pub proof fn lemma_or_split_len(s: Seq<char>, p: int)
    ensures
        or_split_from(s, p).len() >= 1,
    decreases s.len() - p,
{
    if 0 <= p < s.len() {
        if or_match_at(s, p) {
            lemma_skip_spaces(s, p);
            lemma_skip_spaces(s, skip_spaces(s, p) + 2);
            lemma_or_split_len(s, skip_spaces(s, skip_spaces(s, p) + 2));
        } else {
            lemma_or_split_len(s, p + 1);
        }
    }
}

/// The maximal runs of non-space characters from position `p`, in order.
pub open spec fn tokens_from(s: Seq<char>, p: int) -> Seq<Seq<char>>
    decreases s.len() - p,
    via tokens_from_dec
{
    if p < 0 || p >= s.len() {
        Seq::empty()
    } else if s[p] == ' ' {
        tokens_from(s, p + 1)
    } else {
        let e = skip_non_spaces(s, p);
        seq![s.subrange(p, e)] + tokens_from(s, e)
    }
}

#[via_fn]
proof fn tokens_from_dec(s: Seq<char>, p: int) {
    if 0 <= p < s.len() && s[p] != ' ' {
        lemma_skip_non_spaces(s, p);
    }
}

/// The token is exactly a negated-phrase placeholder `”NPK:<digits>”`.
pub open spec fn tok_npk(t: Seq<char>) -> bool {
    t.len() >= 7 && t[0] == '\u{201D}' && t[1] == 'N' && t[2] == 'P' && t[3] == 'K' && t[4] == ':'
        && t[t.len() - 1] == '\u{201D}' && forall|k: int|
        5 <= k < t.len() - 1 ==> is_digit_char(#[trigger] t[k])
}

/// The token is exactly a plain-phrase placeholder `”PK:<digits>”`.
pub open spec fn tok_pk(t: Seq<char>) -> bool {
    t.len() >= 6 && t[0] == '\u{201D}' && t[1] == 'P' && t[2] == 'K' && t[3] == ':' && t[t.len()
        - 1] == '\u{201D}' && forall|k: int| 4 <= k < t.len() - 1 ==> is_digit_char(#[trigger] t[k])
}

/// The token spells `AND`, each letter in any accepted form.
pub open spec fn is_and_word(t: Seq<char>) -> bool {
    t.len() == 3 && is_letter_a(t[0]) && is_letter_n(t[1]) && is_letter_d(t[2])
}

/// The token spells `OR`, each letter in any accepted form.
pub open spec fn is_or_word(t: Seq<char>) -> bool {
    t.len() == 2 && is_letter_o(t[0]) && is_letter_r(t[1])
}

/// Classify one token: phrase placeholders resolve against their table
/// (dropped if the index does not resolve), a single character is a keyword
/// as it stands, a longer token loses exactly one leading dash to negation,
/// stray `AND`/`OR` operators are dropped, and anything else is a keyword.
pub open spec fn classify_spec(t: Seq<char>, npk: Seq<Seq<char>>, pk: Seq<Seq<char>>) -> Option<
    CondModel,
> {
    if tok_npk(t) {
        let v = digits_val(t.subrange(5, t.len() - 1));
        if v > usize::MAX as int {
            Option::None
        } else if 1 <= v <= npk.len() {
            Option::Some(CondModel::Not(Box::new(CondModel::PhraseKeyword(npk[v - 1]))))
        } else {
            Option::None
        }
    } else if tok_pk(t) {
        let v = digits_val(t.subrange(4, t.len() - 1));
        if v > usize::MAX as int {
            Option::None
        } else if 1 <= v <= pk.len() {
            Option::Some(CondModel::PhraseKeyword(pk[v - 1]))
        } else {
            Option::None
        }
    } else if t.len() == 1 {
        Option::Some(CondModel::Keyword(t))
    } else if t.len() > 1 && t[0] == '-' {
        Option::Some(CondModel::Not(Box::new(CondModel::Keyword(t.drop_first()))))
    } else if is_and_word(t) || is_or_word(t) {
        Option::None
    } else {
        Option::Some(CondModel::Keyword(t))
    }
}

/// The conditions of one AND-chunk: blank tokens are skipped, the others
/// classified, and tokens that classify to nothing are dropped.
pub open spec fn and_conds(toks: Seq<Seq<char>>, npk: Seq<Seq<char>>, pk: Seq<Seq<char>>) -> Seq<
    CondModel,
>
    decreases toks,
{
    if toks.len() == 0 {
        Seq::empty()
    } else {
        (if blank_spec(toks[0]) {
            seq![]
        } else {
            match classify_spec(toks[0], npk, pk) {
                Option::Some(c) => seq![c],
                Option::None => seq![],
            }
        }) + and_conds(toks.drop_first(), npk, pk)
    }
}

/// The conditions of the OR-chunks: each non-blank chunk becomes an `And`
/// node over its classified tokens; blank chunks are skipped.
pub open spec fn or_conds(chunks: Seq<Seq<char>>, npk: Seq<Seq<char>>, pk: Seq<Seq<char>>) -> Seq<
    CondModel,
>
    decreases chunks,
{
    if chunks.len() == 0 {
        Seq::empty()
    } else {
        (if blank_spec(chunks[0]) {
            seq![]
        } else {
            seq![
                CondModel::Operator(
                    Operator::And,
                    and_conds(tokens_from(chunks[0], 0), npk, pk),
                ),
            ]
        }) + or_conds(chunks.drop_first(), npk, pk)
    }
}

/// What the boolean tokenizer returns for one text segment.
pub struct LeafOut {
    pub starts_or: bool,
    pub cond: CondModel,
    pub ends_or: bool,
}

/// The boolean tokenizer: extract phrases locally, erase spaced `AND`
/// tokens, read the boundary `OR` flags, split on `OR`, split each chunk on
/// spaces, classify every token, and simplify the resulting two-level tree.
pub open spec fn leaf_cond_spec(s: Seq<char>) -> LeafOut {
    let e = extract_spec(s);
    let t = and_scan_from(e.text, 0);
    let only = only_or_spec(t);
    LeafOut {
        starts_or: only || starts_or_spec(t),
        cond: simplify_spec(
            CondModel::Operator(Operator::Or, or_conds(or_split_from(t, 0), e.npk, e.pk)),
        ),
        ends_or: only || ends_or_spec(t),
    }
}

/// A phrase placeholder (negated when `neg`) begins exactly at position
/// `p`.
pub open spec fn ph_at(s: Seq<char>, p: int, neg: bool) -> bool {
    if neg {
        p + 5 < s.len() && s[p] == '\u{201D}' && s[p + 1] == 'N' && s[p + 2] == 'P' && s[p + 3]
            == 'K' && s[p + 4] == ':' && is_digit_char(s[p + 5]) && {
            let j = skip_digits(s, p + 5);
            j < s.len() && s[j] == '\u{201D}'
        }
    } else {
        p + 4 < s.len() && s[p] == '\u{201D}' && s[p + 1] == 'P' && s[p + 2] == 'K' && s[p + 3]
            == ':' && is_digit_char(s[p + 4]) && {
            let j = skip_digits(s, p + 4);
            j < s.len() && s[j] == '\u{201D}'
        }
    }
}

/// One sweep reinserting phrases for their placeholders: a placeholder
/// whose index resolves becomes the quoted phrase text (with a `-` prefix
/// when negated); one whose index does not resolve is deleted.
pub open spec fn reinsert_from(s: Seq<char>, p: int, table: Seq<Seq<char>>, neg: bool) -> Seq<char>
    decreases s.len() - p,
    via reinsert_from_dec
{
    if p < 0 || p >= s.len() {
        Seq::empty()
    } else if ph_at(s, p, neg) {
        let d0 = p + (if neg {
            5int
        } else {
            4int
        });
        let j = skip_digits(s, d0);
        let v = digits_val(s.subrange(d0, j));
        (if v > usize::MAX as int {
            seq![]
        } else if 1 <= v <= table.len() {
            (if neg {
                seq!['-']
            } else {
                seq![]
            }) + seq!['"'] + table[v - 1] + seq!['"']
        } else {
            seq![]
        }) + reinsert_from(s, j + 1, table, neg)
    } else {
        seq![s[p]] + reinsert_from(s, p + 1, table, neg)
    }
}

#[via_fn]
proof fn reinsert_from_dec(s: Seq<char>, p: int, table: Seq<Seq<char>>, neg: bool) {
    if 0 <= p < s.len() && ph_at(s, p, neg) {
        lemma_skip_digits(
            s,
            p + (if neg {
                5int
            } else {
                4int
            }),
        );
    }
}

/// Phrase reinsertion: the negated-phrase pass, then the plain-phrase pass
/// over its output.
pub open spec fn combine_spec(s: Seq<char>, npk: Seq<Seq<char>>, pk: Seq<Seq<char>>) -> Seq<char> {
    reinsert_from(reinsert_from(s, 0, npk, true), 0, pk, false)
}

/// The views of a list of character vectors, in order.
pub open spec fn vecs_view(es: Seq<Vec<char>>) -> Seq<Seq<char>> {
    Seq::new(es.len(), |i: int| es[i]@)
}

/// Apply [`quote_norm_char`] to every character.
fn norm_quotes_exec(v: &Vec<char>) -> (r: Vec<char>)
    ensures
        r@ == norm_quotes_spec(v@),
{
    let mut r: Vec<char> = Vec::new();
    let mut i: usize = 0;
    while i < v.len()
        invariant
            i <= v@.len(),
            r@.len() == i,
            forall|j: int| 0 <= j < i ==> r@[j] == quote_norm_char(v@[j]),
        decreases v@.len() - i,
    {
        let c = v[i];
        r.push(if c == '\u{201D}' {
            '"'
        } else {
            c
        });
        i = i + 1;
    }
    proof {
        assert(r@ =~= norm_quotes_spec(v@));
    }
    r
}

/// Apply [`sym_norm_char`] to every character.
fn norm_syms_exec(v: &Vec<char>) -> (r: Vec<char>)
    ensures
        r@ == norm_syms_spec(v@),
{
    let mut r: Vec<char> = Vec::new();
    let mut i: usize = 0;
    while i < v.len()
        invariant
            i <= v@.len(),
            r@.len() == i,
            forall|j: int| 0 <= j < i ==> r@[j] == sym_norm_char(v@[j]),
        decreases v@.len() - i,
    {
        let c = v[i];
        r.push(
            if c == '\u{FF08}' {
                '('
            } else if c == '\u{FF09}' {
                ')'
            } else if c == '\u{3000}' {
                ' '
            } else {
                c
            },
        );
        i = i + 1;
    }
    proof {
        assert(r@ =~= norm_syms_spec(v@));
    }
    r
}

/// Remove every occurrence of `c`.
fn strip_char_exec(v: &Vec<char>, c: char) -> (r: Vec<char>)
    ensures
        r@ == strip_char_spec(v@, c),
{
    let mut r: Vec<char> = Vec::new();
    let mut i: usize = 0;
    proof {
        assert(v@.take(0) =~= Seq::<char>::empty());
    }
    while i < v.len()
        invariant
            i <= v@.len(),
            r@ == strip_char_spec(v@.take(i as int), c),
        decreases v@.len() - i,
    {
        let ghost pre = v@.take(i as int);
        let ch = v[i];
        if ch != c {
            r.push(ch);
        }
        proof {
            assert(v@.take(i + 1 as int).drop_last() =~= pre);
            assert(v@.take(i + 1 as int).last() == v@[i as int]);
            if ch != c {
                assert(r@ =~= strip_char_spec(pre, c) + seq![v@[i as int]]);
            } else {
                assert(r@ =~= strip_char_spec(pre, c) + seq![]);
            }
        }
        i = i + 1;
    }
    proof {
        assert(v@.take(v@.len() as int) =~= v@);
    }
    r
}

/// Build the placeholder token for the `k`-th extracted phrase.
fn placeholder_chars(neg: bool, k: usize) -> (r: Vec<char>)
    ensures
        r@ == placeholder_seq(neg, k as nat),
{
    let mut r: Vec<char> = Vec::new();
    r.push(' ');
    r.push('\u{201D}');
    if neg {
        r.push('N');
    }
    r.push('P');
    r.push('K');
    r.push(':');
    let mut ds = to_digits(k);
    r.append(&mut ds);
    r.push('\u{201D}');
    r.push(' ');
    proof {
        assert(r@ =~= placeholder_seq(neg, k as nat));
    }
    r
}

impl Query {
    /// Wrap raw text as a query.
    pub fn new(value: String) -> (q: Query)
        ensures
            q@ == value@,
    {
        Query(value)
    }

    /// The text, surrendered.
    pub fn value(self) -> (r: String)
        ensures
            r@ == self@,
    {
        self.0
    }

    /// The text, borrowed.
    pub fn value_ref(&self) -> (r: &str)
        ensures
            r@ == self@,
    {
        self.0.as_str()
    }

    /// Replace every full-width quote with the ASCII one.
    pub fn normalize_double_quotation(self) -> (r: Self)
        ensures
            r@ == norm_quotes_spec(self@),
    {
        let v = str_chars(self.0.as_str());
        let out = norm_quotes_exec(&v);
        Query(chars_string(&out))
    }

    /// Replace full-width parentheses and ideographic spaces with their
    /// ASCII equivalents.
    pub fn normalize_symbols_except_double_quotation(self) -> (r: Self)
        ensures
            r@ == norm_syms_spec(self@),
    {
        let v = str_chars(self.0.as_str());
        let out = norm_syms_exec(&v);
        Query(chars_string(&out))
    }

    /// Remove every ASCII double quote.
    pub fn remove_double_quotation(self) -> (r: Self)
        ensures
            r@ == strip_char_spec(self@, '"'),
    {
        let v = str_chars(self.0.as_str());
        let out = strip_char_exec(&v, '"');
        Query(chars_string(&out))
    }

    /// Whether anything besides ASCII spaces remains.
    pub fn is_not_blank(&self) -> (r: bool)
        ensures
            r == !blank_spec(self@),
    {
        !str_blank(self.0.as_str())
    }
}

/// One executable phrase-extraction sweep over `v`.
#[verifier::loop_isolation(false)]
fn phrase_scan_exec(v: &Vec<char>, neg: bool) -> (r: (Vec<char>, Vec<Vec<char>>))
    ensures
        r.0@ == phrase_scan_from(v@, 0, neg, 0).out,
        vecs_view(r.1@) == phrase_scan_from(v@, 0, neg, 0).entries,
{
    let mut out: Vec<char> = Vec::new();
    let mut entries: Vec<Vec<char>> = Vec::new();
    let mut p: usize = 0;
    proof {
        assert(vecs_view(entries@) =~= Seq::<Seq<char>>::empty());
    }
    while p < v.len()
        invariant
            p <= v@.len(),
            entries@.len() <= p,
            phrase_scan_from(v@, 0, neg, 0).out == out@ + phrase_scan_from(
                v@,
                p as int,
                neg,
                entries@.len() as nat,
            ).out,
            phrase_scan_from(v@, 0, neg, 0).entries == vecs_view(entries@) + phrase_scan_from(
                v@,
                p as int,
                neg,
                entries@.len() as nat,
            ).entries,
        decreases v@.len() - p,
    {
        let ghost k = entries@.len() as nat;
        let ghost tailspec = phrase_scan_from(v@, p as int, neg, k);
        let m: Option<usize> = if neg {
            if p + 1 < v.len() && v[p] == '-' && v[p + 1] == '"' {
                find_char(v, p + 2, '"')
            } else {
                Option::None
            }
        } else {
            if v[p] == '"' {
                find_char(v, p + 1, '"')
            } else {
                Option::None
            }
        };
        match m {
            Option::Some(j) => {
                proof {
                    assert(phrase_match_at(v@, p as int, neg));
                    lemma_find_idx(v@, p as int + phrase_start(neg), '"');
                }
                let st: usize = if neg {
                    p + 2
                } else {
                    p + 1
                };
                let content = copy_range(v, st, j);
                if chars_blank(&content) {
                    proof {
                        assert(tailspec == phrase_scan_from(v@, j + 1 as int, neg, k));
                    }
                    p = j + 1;
                } else {
                    let idx = entries.len() + 1;
                    let mut ph = placeholder_chars(neg, idx);
                    let ghost out0 = out@;
                    let ghost ph0 = ph@;
                    out.append(&mut ph);
                    let ghost entries0 = entries@;
                    entries.push(content);
                    proof {
                        let tail = phrase_scan_from(v@, j + 1 as int, neg, (k + 1) as nat);
                        assert(tailspec.out == placeholder_seq(neg, (k + 1) as nat) + tail.out);
                        assert(tailspec.entries == seq![v@.subrange(
                            p as int + phrase_start(neg),
                            j as int,
                        )] + tail.entries);
                        assert(out@ == out0 + ph0);
                        assert(vecs_view(entries@) =~= vecs_view(entries0) + seq![content@]);
                        assert((out0 + ph0) + tail.out =~= out0 + (ph0 + tail.out));
                        assert((vecs_view(entries0) + seq![content@]) + tail.entries =~= vecs_view(
                            entries0,
                        ) + (seq![content@] + tail.entries));
                    }
                    p = j + 1;
                }
            },
            Option::None => {
                proof {
                    assert(!phrase_match_at(v@, p as int, neg));
                    let tail = phrase_scan_from(v@, p + 1 as int, neg, k);
                    assert(tailspec.out == seq![v@[p as int]] + tail.out);
                    assert(tailspec.entries == tail.entries);
                }
                let ghost out0 = out@;
                out.push(v[p]);
                proof {
                    assert(out@ =~= out0 + seq![v@[p as int]]);
                    assert((out0 + seq![v@[p as int]]) + phrase_scan_from(
                        v@,
                        p + 1 as int,
                        neg,
                        k,
                    ).out =~= out0 + (seq![v@[p as int]] + phrase_scan_from(
                        v@,
                        p + 1 as int,
                        neg,
                        k,
                    ).out));
                }
                p = p + 1;
            },
        }
    }
    proof {
        assert(phrase_scan_from(v@, p as int, neg, entries@.len() as nat).out
            =~= Seq::<char>::empty());
        assert(phrase_scan_from(v@, p as int, neg, entries@.len() as nat).entries
            =~= Seq::<Seq<char>>::empty());
        assert(out@ =~= phrase_scan_from(v@, 0, neg, 0).out);
        assert(vecs_view(entries@) =~= phrase_scan_from(v@, 0, neg, 0).entries);
    }
    (out, entries)
}

/// Executable sweep erasing spaced `AND` tokens.
#[verifier::loop_isolation(false)]
fn and_scan_exec(v: &Vec<char>) -> (r: Vec<char>)
    ensures
        r@ == and_scan_from(v@, 0),
{
    let mut out: Vec<char> = Vec::new();
    let mut p: usize = 0;
    while p < v.len()
        invariant
            p <= v@.len(),
            and_scan_from(v@, 0) == out@ + and_scan_from(v@, p as int),
        decreases v@.len() - p,
    {
        let ghost tailspec = and_scan_from(v@, p as int);
        let mut matched: Option<usize> = Option::None;
        if v[p] == ' ' {
            let q = skip_spaces_exec(v, p);
            if v.len() > 3 && q < v.len() - 3 {
                if letter_a(v[q]) && letter_n(v[q + 1]) && letter_d(v[q + 2]) && v[q + 3] == ' ' {
                    let b = skip_spaces_exec(v, q + 3);
                    matched = Option::Some(b);
                }
            }
        }
        match matched {
            Option::Some(b) => {
                proof {
                    assert(and_match_at(v@, p as int));
                    assert(tailspec == seq![' '] + and_scan_from(v@, b as int));
                    lemma_skip_spaces(v@, p as int);
                    lemma_skip_spaces(v@, skip_spaces(v@, p as int) + 3);
                }
                let ghost out0 = out@;
                out.push(' ');
                proof {
                    assert(out@ =~= out0 + seq![' ']);
                    assert((out0 + seq![' ']) + and_scan_from(v@, b as int) =~= out0 + (seq![' ']
                        + and_scan_from(v@, b as int)));
                }
                p = b;
            },
            Option::None => {
                proof {
                    assert(!and_match_at(v@, p as int));
                    assert(tailspec == seq![v@[p as int]] + and_scan_from(v@, p + 1 as int));
                }
                let ghost out0 = out@;
                out.push(v[p]);
                proof {
                    assert(out@ =~= out0 + seq![v@[p as int]]);
                    assert((out0 + seq![v@[p as int]]) + and_scan_from(v@, p + 1 as int) =~= out0 + (
                    seq![v@[p as int]] + and_scan_from(v@, p + 1 as int)));
                }
                p = p + 1;
            },
        }
    }
    proof {
        assert(and_scan_from(v@, p as int) =~= Seq::<char>::empty());
        assert(out@ =~= and_scan_from(v@, 0));
    }
    out
}

/// Executable boundary flags: does the segment start, or end, with a
/// standalone `OR` token?
fn or_flags_exec(v: &Vec<char>) -> (r: (bool, bool))
    ensures
        r.0 == (only_or_spec(v@) || starts_or_spec(v@)),
        r.1 == (only_or_spec(v@) || ends_or_spec(v@)),
{
    let a = skip_spaces_exec(v, 0);
    let only: bool = if v.len() >= 2 && a < v.len() - 1 {
        if letter_o(v[a]) && letter_r(v[a + 1]) {
            skip_spaces_exec(v, a + 2) == v.len()
        } else {
            false
        }
    } else {
        false
    };
    let starts: bool = if v.len() >= 3 && a < v.len() - 2 {
        letter_o(v[a]) && letter_r(v[a + 1]) && v[a + 2] == ' '
    } else {
        false
    };
    let ends: bool = match last_non_space_exec(v) {
        Option::Some(b) => {
            proof {
                crate::text::lemma_last_non_space(v@);
            }
            if b >= 2 {
                letter_o(v[b - 1]) && letter_r(v[b]) && v[b - 2] == ' '
            } else {
                false
            }
        },
        Option::None => false,
    };
    (only || starts, only || ends)
}

/// Executable split on `OR` separators.
#[verifier::loop_isolation(false)]
fn or_split_exec(v: &Vec<char>) -> (r: Vec<Vec<char>>)
    ensures
        vecs_view(r@) == or_split_from(v@, 0),
{
    let mut chunks: Vec<Vec<char>> = Vec::new();
    let mut cur: Vec<char> = Vec::new();
    let mut p: usize = 0;
    proof {
        lemma_or_split_len(v@, 0);
    }
    while p < v.len()
        invariant
            p <= v@.len(),
            or_split_from(v@, p as int).len() >= 1,
            or_split_from(v@, 0) == vecs_view(chunks@) + (seq![cur@ + or_split_from(
                v@,
                p as int,
            )[0]] + or_split_from(v@, p as int).drop_first()),
        decreases v@.len() - p,
    {
        let ghost tailspec = or_split_from(v@, p as int);
        let mut matched: Option<usize> = Option::None;
        if v[p] == ' ' {
            let q = skip_spaces_exec(v, p);
            if v.len() > 2 && q < v.len() - 2 {
                if letter_o(v[q]) && letter_r(v[q + 1]) && v[q + 2] == ' ' {
                    let t = skip_spaces_exec(v, q + 2);
                    matched = Option::Some(t);
                }
            }
        }
        match matched {
            Option::Some(t) => {
                proof {
                    assert(or_match_at(v@, p as int));
                    lemma_skip_spaces(v@, p as int);
                    lemma_skip_spaces(v@, skip_spaces(v@, p as int) + 2);
                    lemma_or_split_len(v@, t as int);
                    let rest = or_split_from(v@, t as int);
                    assert(tailspec == seq![Seq::<char>::empty()] + rest);
                    assert(tailspec[0] =~= Seq::<char>::empty());
                    assert(cur@ + tailspec[0] =~= cur@);
                    assert(tailspec.drop_first() =~= rest);
                }
                let ghost chunks0 = chunks@;
                let ghost cur0 = cur@;
                chunks.push(cur);
                cur = Vec::new();
                proof {
                    let rest = or_split_from(v@, t as int);
                    assert(vecs_view(chunks@) =~= vecs_view(chunks0) + seq![cur0]);
                    assert(cur@ + rest[0] =~= rest[0]);
                    assert(rest =~= seq![rest[0]] + rest.drop_first());
                    assert(seq![cur0 + tailspec[0]] =~= seq![cur0]);
                    assert((vecs_view(chunks0) + seq![cur0]) + (seq![rest[0]] + rest.drop_first())
                        =~= vecs_view(chunks0) + (seq![cur0] + rest));
                    assert(seq![cur@ + rest[0]] + rest.drop_first() =~= seq![rest[0]]
                        + rest.drop_first());
                    assert(seq![cur0 + tailspec[0]] + tailspec.drop_first() =~= seq![cur0] + rest);
                }
                p = t;
            },
            Option::None => {
                proof {
                    assert(!or_match_at(v@, p as int));
                    lemma_or_split_len(v@, p + 1 as int);
                    let tail = or_split_from(v@, p + 1 as int);
                    assert(tailspec == seq![seq![v@[p as int]] + tail[0]] + tail.drop_first());
                    assert(tailspec[0] == seq![v@[p as int]] + tail[0]);
                    assert(tailspec.drop_first() =~= tail.drop_first());
                }
                let ghost cur0 = cur@;
                cur.push(v[p]);
                proof {
                    let tail = or_split_from(v@, p + 1 as int);
                    assert(cur@ =~= cur0 + seq![v@[p as int]]);
                    assert(cur@ + tail[0] =~= cur0 + (seq![v@[p as int]] + tail[0]));
                }
                p = p + 1;
            },
        }
    }
    proof {
        assert(or_split_from(v@, p as int) =~= seq![Seq::<char>::empty()]);
        assert(cur@ + or_split_from(v@, p as int)[0] =~= cur@);
        assert(or_split_from(v@, p as int).drop_first() =~= Seq::<Seq<char>>::empty());
    }
    let ghost chunks0 = chunks@;
    let ghost cur0 = cur@;
    chunks.push(cur);
    proof {
        assert(vecs_view(chunks@) =~= vecs_view(chunks0) + seq![cur0]);
        assert(vecs_view(chunks0) + (seq![cur0] + Seq::<Seq<char>>::empty()) =~= vecs_view(chunks0)
            + seq![cur0]);
        assert(vecs_view(chunks@) =~= or_split_from(v@, 0));
    }
    chunks
}

/// Executable classification of one token.
fn classify_exec(t: &Vec<char>, npk: &Vec<Vec<char>>, pk: &Vec<Vec<char>>) -> (r: Option<Condition>)
    ensures
        match r {
            Option::Some(c) => classify_spec(t@, vecs_view(npk@), vecs_view(pk@)) == Option::Some(
                c@,
            ),
            Option::None => classify_spec(t@, vecs_view(npk@), vecs_view(pk@)) is None,
        },
{
    let n = t.len();
    let is_npk: bool = n >= 7 && t[0] == '\u{201D}' && t[1] == 'N' && t[2] == 'P' && t[3] == 'K'
        && t[4] == ':' && t[n - 1] == '\u{201D}' && {
        proof {
            lemma_skip_digits(t@, 5);
        }
        skip_digits_exec(t, 5) == n - 1
    };
    proof {
        if n >= 7 {
            lemma_skip_digits(t@, 5);
        }
        assert(is_npk == tok_npk(t@));
    }
    if is_npk {
        match parse_usize(t, 5, n - 1) {
            Option::Some(u) => {
                if 1 <= u && u <= npk.len() {
                    let text = chars_string(&npk[u - 1]);
                    proof {
                        assert(vecs_view(npk@)[u - 1] == npk@[u - 1]@);
                    }
                    let inner = Condition::PhraseKeyword(text);
                    proof {
                        assert(inner@ == CondModel::PhraseKeyword(vecs_view(npk@)[u - 1]));
                    }
                    let res = Condition::Not(Box::new(inner));
                    proof {
                        assert(res@ == CondModel::Not(
                            Box::new(CondModel::PhraseKeyword(vecs_view(npk@)[u - 1])),
                        ));
                    }
                    return Option::Some(res);
                } else {
                    return Option::None;
                }
            },
            Option::None => {
                return Option::None;
            },
        }
    }
    let is_pk: bool = n >= 6 && t[0] == '\u{201D}' && t[1] == 'P' && t[2] == 'K' && t[3] == ':'
        && t[n - 1] == '\u{201D}' && {
        proof {
            lemma_skip_digits(t@, 4);
        }
        skip_digits_exec(t, 4) == n - 1
    };
    proof {
        if n >= 6 {
            lemma_skip_digits(t@, 4);
        }
        assert(is_pk == tok_pk(t@));
    }
    if is_pk {
        match parse_usize(t, 4, n - 1) {
            Option::Some(u) => {
                if 1 <= u && u <= pk.len() {
                    let text = chars_string(&pk[u - 1]);
                    proof {
                        assert(vecs_view(pk@)[u - 1] == pk@[u - 1]@);
                    }
                    return Option::Some(Condition::PhraseKeyword(text));
                } else {
                    return Option::None;
                }
            },
            Option::None => {
                return Option::None;
            },
        }
    }
    if n == 1 {
        return Option::Some(Condition::Keyword(chars_string(t)));
    }
    if n > 1 && t[0] == '-' {
        let rest = copy_range(t, 1, n);
        proof {
            assert(rest@ =~= t@.drop_first());
        }
        let inner = Condition::Keyword(chars_string(&rest));
        proof {
            assert(inner@ == CondModel::Keyword(t@.drop_first()));
        }
        let res = Condition::Not(Box::new(inner));
        proof {
            assert(res@ == CondModel::Not(Box::new(CondModel::Keyword(t@.drop_first()))));
        }
        return Option::Some(res);
    }
    let is_and = n == 3 && letter_a(t[0]) && letter_n(t[1]) && letter_d(t[2]);
    let is_or = n == 2 && letter_o(t[0]) && letter_r(t[1]);
    if is_and || is_or {
        return Option::None;
    }
    Option::Some(Condition::Keyword(chars_string(t)))
}

/// The conditions of one AND-chunk, executably.
#[verifier::loop_isolation(false)]
fn chunk_conds_exec(chunk: &Vec<char>, npk: &Vec<Vec<char>>, pk: &Vec<Vec<char>>) -> (r: Vec<
    Condition,
>)
    ensures
        crate::condition::model_seq(r@) == and_conds(
            tokens_from(chunk@, 0),
            vecs_view(npk@),
            vecs_view(pk@),
        ),
{
    let ghost npkv = vecs_view(npk@);
    let ghost pkv = vecs_view(pk@);
    let mut out: Vec<Condition> = Vec::new();
    let mut p: usize = 0;
    proof {
        crate::condition::lemma_model_seq(out@);
    }
    while p < chunk.len()
        invariant
            p <= chunk@.len(),
            and_conds(tokens_from(chunk@, 0), npkv, pkv) == crate::condition::model_seq(out@)
                + and_conds(tokens_from(chunk@, p as int), npkv, pkv),
        decreases chunk@.len() - p,
    {
        let ghost toks = tokens_from(chunk@, p as int);
        if chunk[p] == ' ' {
            proof {
                assert(toks == tokens_from(chunk@, p + 1 as int));
            }
            p = p + 1;
        } else {
            let e = skip_non_spaces_exec(chunk, p);
            proof {
                lemma_skip_non_spaces(chunk@, p as int);
            }
            let tok = copy_range(chunk, p, e);
            let ghost tail = tokens_from(chunk@, e as int);
            proof {
                assert(toks == seq![tok@] + tail);
                assert(toks[0] == tok@);
                assert(toks.drop_first() =~= tail);
            }
            if !chars_blank(&tok) {
                match classify_exec(&tok, npk, pk) {
                    Option::Some(c) => {
                        let ghost out0 = out@;
                        let ghost cm = c@;
                        out.push(c);
                        proof {
                            crate::condition::lemma_model_seq_push(out0, out@[out@.len() - 1]);
                            assert((crate::condition::model_seq(out0) + seq![cm]) + and_conds(
                                tail,
                                npkv,
                                pkv,
                            ) =~= crate::condition::model_seq(out0) + (seq![cm] + and_conds(
                                tail,
                                npkv,
                                pkv,
                            )));
                        }
                    },
                    Option::None => {
                        proof {
                            assert(and_conds(toks, npkv, pkv) =~= Seq::<CondModel>::empty()
                                + and_conds(tail, npkv, pkv));
                            assert(Seq::<CondModel>::empty() + and_conds(tail, npkv, pkv)
                                =~= and_conds(tail, npkv, pkv));
                        }
                    },
                }
            } else {
                proof {
                    assert(and_conds(toks, npkv, pkv) =~= Seq::<CondModel>::empty() + and_conds(
                        tail,
                        npkv,
                        pkv,
                    ));
                    assert(Seq::<CondModel>::empty() + and_conds(tail, npkv, pkv) =~= and_conds(
                        tail,
                        npkv,
                        pkv,
                    ));
                }
            }
            p = e;
        }
    }
    proof {
        assert(tokens_from(chunk@, p as int) =~= Seq::<Seq<char>>::empty());
        assert(and_conds(Seq::<Seq<char>>::empty(), npkv, pkv) =~= Seq::<CondModel>::empty());
        assert(crate::condition::model_seq(out@) + Seq::<CondModel>::empty() =~= crate
            ::condition::model_seq(out@));
    }
    out
}

/// The `Or`-level condition list over all chunks, executably.
#[verifier::loop_isolation(false)]
fn or_conds_exec(chunks: &Vec<Vec<char>>, npk: &Vec<Vec<char>>, pk: &Vec<Vec<char>>) -> (r: Vec<
    Condition,
>)
    ensures
        crate::condition::model_seq(r@) == or_conds(
            vecs_view(chunks@),
            vecs_view(npk@),
            vecs_view(pk@),
        ),
{
    let ghost npkv = vecs_view(npk@);
    let ghost pkv = vecs_view(pk@);
    let ghost cv = vecs_view(chunks@);
    let mut out: Vec<Condition> = Vec::new();
    let mut i: usize = 0;
    proof {
        assert(cv.skip(0) =~= cv);
        assert(crate::condition::model_seq(out@) + or_conds(cv, npkv, pkv) =~= or_conds(
            cv,
            npkv,
            pkv,
        ));
    }
    while i < chunks.len()
        invariant
            i <= chunks@.len(),
            or_conds(cv, npkv, pkv) == crate::condition::model_seq(out@) + or_conds(
                cv.skip(i as int),
                npkv,
                pkv,
            ),
        decreases chunks@.len() - i,
    {
        let ghost rest = cv.skip(i as int);
        proof {
            assert(rest[0] == cv[i as int]);
            assert(rest.drop_first() =~= cv.skip(i + 1 as int));
        }
        let chunk = &chunks[i];
        if !chars_blank(chunk) {
            let cs = chunk_conds_exec(chunk, npk, pk);
            let ghost csm = crate::condition::model_seq(cs@);
            let node = Condition::Operator(Operator::And, cs);
            proof {
                assert(node@ == CondModel::Operator(Operator::And, csm));
            }
            let ghost out0 = out@;
            let ghost nodem = node@;
            out.push(node);
            proof {
                crate::condition::lemma_model_seq_push(out0, out@[out@.len() - 1]);
                assert((crate::condition::model_seq(out0) + seq![nodem]) + or_conds(
                    cv.skip(i + 1 as int),
                    npkv,
                    pkv,
                ) =~= crate::condition::model_seq(out0) + (seq![nodem] + or_conds(
                    cv.skip(i + 1 as int),
                    npkv,
                    pkv,
                )));
            }
        } else {
            proof {
                assert(or_conds(rest, npkv, pkv) =~= Seq::<CondModel>::empty() + or_conds(
                    cv.skip(i + 1 as int),
                    npkv,
                    pkv,
                ));
                assert(Seq::<CondModel>::empty() + or_conds(cv.skip(i + 1 as int), npkv, pkv)
                    =~= or_conds(cv.skip(i + 1 as int), npkv, pkv));
            }
        }
        i = i + 1;
    }
    proof {
        assert(cv.skip(i as int) =~= Seq::<Seq<char>>::empty());
        assert(or_conds(Seq::<Seq<char>>::empty(), npkv, pkv) =~= Seq::<CondModel>::empty());
        assert(crate::condition::model_seq(out@) + Seq::<CondModel>::empty() =~= crate
            ::condition::model_seq(out@));
    }
    out
}

/// One executable phrase-reinsertion sweep over `v`.
#[verifier::loop_isolation(false)]
fn reinsert_exec(v: &Vec<char>, table: &Vec<Vec<char>>, neg: bool) -> (r: Vec<char>)
    ensures
        r@ == reinsert_from(v@, 0, vecs_view(table@), neg),
{
    let ghost tv = vecs_view(table@);
    let mut out: Vec<char> = Vec::new();
    let mut p: usize = 0;
    while p < v.len()
        invariant
            p <= v@.len(),
            reinsert_from(v@, 0, tv, neg) == out@ + reinsert_from(v@, p as int, tv, neg),
        decreases v@.len() - p,
    {
        let ghost tailspec = reinsert_from(v@, p as int, tv, neg);
        let tag_len: usize = if neg {
            5
        } else {
            4
        };
        let mut matched: Option<usize> = Option::None;
        if v.len() - p > tag_len && v[p] == '\u{201D}' {
            let tag_ok = if neg {
                v[p + 1] == 'N' && v[p + 2] == 'P' && v[p + 3] == 'K' && v[p + 4] == ':'
            } else {
                v[p + 1] == 'P' && v[p + 2] == 'K' && v[p + 3] == ':'
            };
            if tag_ok && digit_char(v[p + tag_len]) {
                let j = skip_digits_exec(v, p + tag_len);
                proof {
                    lemma_skip_digits(v@, p + tag_len as int);
                }
                if j < v.len() && v[j] == '\u{201D}' {
                    matched = Option::Some(j);
                }
            }
        }
        match matched {
            Option::Some(j) => {
                proof {
                    assert(ph_at(v@, p as int, neg));
                    lemma_skip_digits(v@, p + tag_len as int);
                }
                let rep: Option<usize> = match parse_usize(v, p + tag_len, j) {
                    Option::Some(u) => {
                        if 1 <= u && u <= table.len() {
                            Option::Some(u)
                        } else {
                            Option::None
                        }
                    },
                    Option::None => Option::None,
                };
                let ghost out0 = out@;
                let ghost piece: Seq<char> = {
                    let vv = digits_val(v@.subrange(p + tag_len as int, j as int));
                    if vv > usize::MAX as int {
                        seq![]
                    } else if 1 <= vv <= tv.len() {
                        (if neg {
                            seq!['-']
                        } else {
                            seq![]
                        }) + seq!['"'] + tv[vv - 1] + seq!['"']
                    } else {
                        seq![]
                    }
                };
                proof {
                    assert(tailspec == piece + reinsert_from(v@, j + 1 as int, tv, neg));
                }
                match rep {
                    Option::Some(u) => {
                        if neg {
                            out.push('-');
                        }
                        out.push('"');
                        let mut content = copy_range(&table[u - 1], 0, table[u - 1].len());
                        proof {
                            assert(content@ =~= tv[u - 1]);
                        }
                        out.append(&mut content);
                        out.push('"');
                        proof {
                            assert(out@ =~= out0 + piece);
                        }
                    },
                    Option::None => {
                        proof {
                            assert(piece =~= Seq::<char>::empty());
                            assert(out@ =~= out0 + piece);
                        }
                    },
                }
                proof {
                    assert((out0 + piece) + reinsert_from(v@, j + 1 as int, tv, neg) =~= out0 + (
                    piece + reinsert_from(v@, j + 1 as int, tv, neg)));
                }
                p = j + 1;
            },
            Option::None => {
                proof {
                    assert(!ph_at(v@, p as int, neg));
                    assert(tailspec == seq![v@[p as int]] + reinsert_from(
                        v@,
                        p + 1 as int,
                        tv,
                        neg,
                    ));
                }
                let ghost out0 = out@;
                out.push(v[p]);
                proof {
                    assert(out@ =~= out0 + seq![v@[p as int]]);
                    assert((out0 + seq![v@[p as int]]) + reinsert_from(v@, p + 1 as int, tv, neg)
                        =~= out0 + (seq![v@[p as int]] + reinsert_from(v@, p + 1 as int, tv, neg)));
                }
                p = p + 1;
            },
        }
    }
    proof {
        assert(reinsert_from(v@, p as int, tv, neg) =~= Seq::<char>::empty());
        assert(out@ =~= reinsert_from(v@, 0, tv, neg));
    }
    out
}

/// Wrap each character vector as a `Query`.
fn to_queries(vs: Vec<Vec<char>>) -> (r: Vec<Query>)
    ensures
        queries_view(r@) == vecs_view(vs@),
{
    let mut r: Vec<Query> = Vec::new();
    let mut i: usize = 0;
    while i < vs.len()
        invariant
            i <= vs@.len(),
            r@.len() == i,
            forall|j: int| 0 <= j < i ==> (#[trigger] r@[j])@ == vs@[j]@,
        decreases vs@.len() - i,
    {
        r.push(Query(chars_string(&vs[i])));
        i = i + 1;
    }
    proof {
        assert(queries_view(r@) =~= vecs_view(vs@));
    }
    r
}

/// The characters of each query, as vectors.
pub(crate) fn from_queries(qs: &Vec<Query>) -> (r: Vec<Vec<char>>)
    ensures
        vecs_view(r@) == queries_view(qs@),
{
    let mut r: Vec<Vec<char>> = Vec::new();
    let mut i: usize = 0;
    while i < qs.len()
        invariant
            i <= qs@.len(),
            r@.len() == i,
            forall|j: int| 0 <= j < i ==> (#[trigger] r@[j])@ == qs@[j]@,
        decreases qs@.len() - i,
    {
        r.push(str_chars(qs[i].0.as_str()));
        i = i + 1;
    }
    proof {
        assert(vecs_view(r@) =~= queries_view(qs@));
    }
    r
}

/// Executable phrase reinsertion over raw characters: the negated-phrase
/// pass, then the plain-phrase pass.
pub(crate) fn combine_chars(v: &Vec<char>, npk: &Vec<Vec<char>>, pk: &Vec<Vec<char>>) -> (r: Vec<
    char,
>)
    ensures
        r@ == combine_spec(v@, vecs_view(npk@), vecs_view(pk@)),
{
    let o1 = reinsert_exec(v, npk, true);
    reinsert_exec(&o1, pk, false)
}

impl Query {
    /// Extract every quoted and negated-quoted span into its table,
    /// replacing it with a placeholder token; blank spans are deleted, and
    /// a dangling unpaired quote stays as ordinary text.  Returns the
    /// rewritten text, the negated phrases and the plain phrases, in the
    /// order encountered.
    pub fn extract_phrase_keywords(self) -> (r: (Query, Vec<Query>, Vec<Query>))
        ensures
            r.0@ == extract_spec(self@).text,
            queries_view(r.1@) == extract_spec(self@).npk,
            queries_view(r.2@) == extract_spec(self@).pk,
    {
        let v = str_chars(self.0.as_str());
        let (o1, npk) = phrase_scan_exec(&v, true);
        let (o2, pk) = phrase_scan_exec(&o1, false);
        (Query(chars_string(&o2)), to_queries(npk), to_queries(pk))
    }

    /// Put the extracted phrases back in place of their placeholder tokens,
    /// restoring the quotes and the `-` prefix of negated phrases.  A
    /// placeholder whose index does not resolve is deleted.
    pub fn combine_phrase_keywords(
        self,
        negative_phrase_keywords: &Vec<Query>,
        phrase_keywords: &Vec<Query>,
    ) -> (r: Self)
        ensures
            r@ == combine_spec(
                self@,
                queries_view(negative_phrase_keywords@),
                queries_view(phrase_keywords@),
            ),
    {
        let v = str_chars(self.0.as_str());
        let npk = from_queries(negative_phrase_keywords);
        let pk = from_queries(phrase_keywords);
        let o1 = reinsert_exec(&v, &npk, true);
        let o2 = reinsert_exec(&o1, &pk, false);
        Query(chars_string(&o2))
    }

    /// The boolean tokenizer over one text segment: extract phrases, treat
    /// spaced `AND` as plain adjacency, split on `OR`, split chunks on
    /// whitespace, classify every token and simplify.  Also reports whether
    /// the segment starts and ends with a standalone `OR` token.
    pub fn to_condition(self) -> (r: (bool, Condition, bool))
        ensures
            r.0 == leaf_cond_spec(self@).starts_or,
            r.1@ == leaf_cond_spec(self@).cond,
            r.2 == leaf_cond_spec(self@).ends_or,
    {
        let v = str_chars(self.0.as_str());
        let (o1, npk) = phrase_scan_exec(&v, true);
        let (o2, pk) = phrase_scan_exec(&o1, false);
        let t = and_scan_exec(&o2);
        let flags = or_flags_exec(&t);
        let chunks = or_split_exec(&t);
        let list = or_conds_exec(&chunks, &npk, &pk);
        let ghost listm = crate::condition::model_seq(list@);
        let node = Condition::Operator(Operator::Or, list);
        proof {
            assert(node@ == CondModel::Operator(Operator::Or, listm));
        }
        let cond = node.simplify();
        (flags.0, cond, flags.1)
    }
}

} // verus!
