//! Bracket layering: collapsing parenthesized spans into a tree of text
//! segments and (possibly negated) groups, and recombining that tree into a
//! single condition.

use vstd::prelude::*;

use crate::condition::{model_seq, simplify_spec, CondModel, Condition, Operator};
use crate::query::{
    combine_spec, extract_spec, leaf_cond_spec, norm_quotes_spec, norm_syms_spec, vecs_view, Query,
};
use crate::text::{
    blank_spec, digits_spec, digits_val, is_digit_char, lemma_digits_spec, lemma_skip_digits,
    skip_digits,
};

verus! {

/// Mathematical model of one layered node: a leaf text segment or a
/// (possibly negated) group of nodes.
pub enum LQModel {
    Text(Seq<char>),
    Group(Seq<LQModel>),
    NegGroup(Seq<LQModel>),
}

/// One node of the layered tree.
#[derive(Debug, PartialEq, Eq)]
pub enum LayeredQuery {
    Query(Query),
    Bracket(LayeredQueries),
    NegativeBracket(LayeredQueries),
}

/// The layered tree: text segments and bracket groups in textual order.
#[derive(Debug, PartialEq, Eq)]
pub struct LayeredQueries(pub Vec<LayeredQuery>);

impl LayeredQuery {
    /// The model of this node.
    pub open spec fn model(self) -> LQModel
        decreases self,
    {
        match self {
            LayeredQuery::Query(q) => LQModel::Text(q@),
            LayeredQuery::Bracket(l) => LQModel::Group(lq_model_seq(l.0@)),
            LayeredQuery::NegativeBracket(l) => LQModel::NegGroup(lq_model_seq(l.0@)),
        }
    }
}

/// The models of a list of layered nodes, in order.
pub open spec fn lq_model_seq(ns: Seq<LayeredQuery>) -> Seq<LQModel>
    decreases ns,
{
    if ns.len() == 0 {
        Seq::empty()
    } else {
        seq![ns[0].model()] + lq_model_seq(ns.drop_first())
    }
}

impl View for LayeredQuery {
    type V = LQModel;

    open spec fn view(&self) -> LQModel {
        (*self).model()
    }
}

impl View for LayeredQueries {
    type V = Seq<LQModel>;

    open spec fn view(&self) -> Seq<LQModel> {
        lq_model_seq(self.0@)
    }
}

/// `lq_model_seq` keeps length and maps elements one for one.
pub proof fn lemma_lq_model_seq(ns: Seq<LayeredQuery>)
    ensures
        lq_model_seq(ns).len() == ns.len(),
        forall|i: int| 0 <= i < ns.len() ==> lq_model_seq(ns)[i] == #[trigger] ns[i].model(),
    decreases ns,
{
    if ns.len() > 0 {
        lemma_lq_model_seq(ns.drop_first());
        assert forall|i: int| 0 <= i < ns.len() implies lq_model_seq(ns)[i] == #[trigger] ns[i].model() by {
            if i > 0 {
                assert(lq_model_seq(ns)[i] == lq_model_seq(ns.drop_first())[i - 1]);
                assert(ns.drop_first()[i - 1] == ns[i]);
            }
        }
    }
}

/// `lq_model_seq` distributes over `push`.
pub proof fn lemma_lq_model_seq_push(s: Seq<LayeredQuery>, x: LayeredQuery)
    ensures
        lq_model_seq(s.push(x)) == lq_model_seq(s) + seq![x.model()],
{
    lemma_lq_model_seq(s);
    lemma_lq_model_seq(s.push(x));
    assert forall|i: int| 0 <= i < s.push(x).len() implies lq_model_seq(s.push(x))[i] == (
    lq_model_seq(s) + seq![x.model()])[i] by {
        assert(lq_model_seq(s.push(x))[i] == s.push(x)[i].model());
        if i < s.len() {
            assert(s.push(x)[i] == s[i]);
            assert(lq_model_seq(s)[i] == s[i].model());
        } else {
            assert(s.push(x)[i] == x);
        }
    }
    assert(lq_model_seq(s.push(x)) =~= lq_model_seq(s) + seq![x.model()]);
}

/// The number of ASCII opening parentheses in `s`.
pub open spec fn count_opens(s: Seq<char>) -> int
    decreases s,
{
    if s.len() == 0 {
        0int
    } else {
        (if s[0] == '(' {
            1int
        } else {
            0int
        }) + count_opens(s.drop_first())
    }
}

/// `count_opens` distributes over concatenation.
pub proof fn lemma_count_opens_concat(a: Seq<char>, b: Seq<char>)
    ensures
        count_opens(a + b) == count_opens(a) + count_opens(b),
    decreases a,
{
    if a.len() == 0 {
        assert(a + b =~= b);
    } else {
        lemma_count_opens_concat(a.drop_first(), b);
        assert((a + b).drop_first() =~= a.drop_first() + b);
        assert((a + b)[0] == a[0]);
    }
}

/// A sequence without `(` counts zero opens.
pub proof fn lemma_count_opens_zero(s: Seq<char>)
    requires
        forall|i: int| 0 <= i < s.len() ==> s[i] != '(',
    ensures
        count_opens(s) == 0,
    decreases s,
{
    if s.len() > 0 {
        lemma_count_opens_zero(s.drop_first());
    }
}

/// `count_opens` is non-negative.
pub proof fn lemma_count_opens_nonneg(s: Seq<char>)
    ensures
        count_opens(s) >= 0,
    decreases s,
{
    if s.len() > 0 {
        lemma_count_opens_nonneg(s.drop_first());
    }
}

/// The first index at or after `from` holding an ASCII parenthesis;
/// `s.len()` if there is none.
pub open spec fn skip_non_paren(s: Seq<char>, from: int) -> int
    decreases s.len() - from,
{
    if from < 0 || from >= s.len() {
        s.len() as int
    } else if s[from] == '(' || s[from] == ')' {
        from
    } else {
        skip_non_paren(s, from + 1)
    }
}

/// What [`skip_non_paren`] returns.
pub proof fn lemma_skip_non_paren(s: Seq<char>, from: int)
    requires
        0 <= from <= s.len(),
    ensures
        from <= skip_non_paren(s, from) <= s.len(),
        forall|k: int|
            from <= k < skip_non_paren(s, from) ==> s[k] != '(' && s[k] != ')',
        skip_non_paren(s, from) < s.len() ==> (s[skip_non_paren(s, from)] == '(' || s[
            skip_non_paren(s, from)
        ] == ')'),
    decreases s.len() - from,
{
    if from < s.len() && s[from] != '(' && s[from] != ')' {
        lemma_skip_non_paren(s, from + 1);
    }
}

/// An innermost parenthesized span begins exactly at position `p`: an
/// opening parenthesis whose next parenthesis character is a closing one.
pub open spec fn bracket_match_at(s: Seq<char>, p: int) -> bool {
    p < s.len() && s[p] == '(' && {
        let j = skip_non_paren(s, p + 1);
        j < s.len() && s[j] == ')'
    }
}

/// The placeholder token written in place of the `k`-th collapsed bracket
/// span: `（k）` with full-width parentheses.
pub open spec fn bracket_placeholder(k: nat) -> Seq<char> {
    seq!['\u{FF08}'] + digits_spec(k) + seq!['\u{FF09}']
}

/// Result of one bracket-collapsing pass: the rewritten text, the collapsed
/// span contents in order, and how many spans were matched.
pub struct BracketPass {
    pub out: Seq<char>,
    pub entries: Seq<Seq<char>>,
    pub matches: nat,
}

/// One left-to-right pass from position `p`, with `k` spans already in the
/// table: every innermost parenthesized span with non-blank content becomes
/// a placeholder and a table entry; one with blank content is deleted.
pub open spec fn bracket_pass_from(s: Seq<char>, p: int, k: nat) -> BracketPass
    decreases s.len() - p,
    via bracket_pass_from_dec
{
    if p < 0 || p >= s.len() {
        BracketPass { out: Seq::empty(), entries: Seq::empty(), matches: 0 }
    } else if bracket_match_at(s, p) {
        let j = skip_non_paren(s, p + 1);
        let content = s.subrange(p + 1, j);
        if blank_spec(content) {
            let tail = bracket_pass_from(s, j + 1, k);
            BracketPass { out: tail.out, entries: tail.entries, matches: (tail.matches + 1) as nat }
        } else {
            let tail = bracket_pass_from(s, j + 1, (k + 1) as nat);
            BracketPass {
                out: bracket_placeholder((k + 1) as nat) + tail.out,
                entries: seq![content] + tail.entries,
                matches: (tail.matches + 1) as nat,
            }
        }
    } else {
        let tail = bracket_pass_from(s, p + 1, k);
        BracketPass { out: seq![s[p]] + tail.out, entries: tail.entries, matches: tail.matches }
    }
}

#[via_fn]
proof fn bracket_pass_from_dec(s: Seq<char>, p: int, k: nat) {
    if 0 <= p < s.len() && bracket_match_at(s, p) {
        lemma_skip_non_paren(s, p + 1);
    }
}

/// Each match of a pass consumes exactly one opening parenthesis, and the
/// output contains the rest.
pub proof fn lemma_bracket_pass_count(s: Seq<char>, p: int, k: nat)
    requires
        0 <= p <= s.len(),
    ensures
        count_opens(bracket_pass_from(s, p, k).out) + bracket_pass_from(s, p, k).matches
            == count_opens(s.subrange(p, s.len() as int)),
    decreases s.len() - p,
{
    if p < s.len() {
        let rest = s.subrange(p, s.len() as int);
        if bracket_match_at(s, p) {
            lemma_skip_non_paren(s, p + 1);
            let j = skip_non_paren(s, p + 1);
            let content = s.subrange(p + 1, j);
            lemma_bracket_pass_count(s, j + 1, k);
            lemma_bracket_pass_count(s, j + 1, (k + 1) as nat);
            // opens between p and j: one at p, none inside the content or at j
            assert(rest =~= seq![s[p]] + content + seq![s[j]] + s.subrange(j + 1, s.len() as int));
            lemma_count_opens_concat(seq![s[p]] + content + seq![s[j]], s.subrange(j + 1, s.len() as int));
            lemma_count_opens_concat(seq![s[p]] + content, seq![s[j]]);
            lemma_count_opens_concat(seq![s[p]], content);
            lemma_count_opens_zero(content);
            assert(seq![s[p]].drop_first() =~= Seq::<char>::empty());
            assert(seq![s[j]].drop_first() =~= Seq::<char>::empty());
            assert(count_opens(Seq::<char>::empty()) == 0);
            assert(count_opens(seq![s[p]]) == 1);
            assert(count_opens(seq![s[j]]) == 0);
            if blank_spec(content) {
            } else {
                let ph = bracket_placeholder((k + 1) as nat);
                lemma_digits_spec((k + 1) as nat);
                assert(forall|i: int| 0 <= i < ph.len() ==> ph[i] != '(');
                lemma_count_opens_zero(ph);
                lemma_count_opens_concat(ph, bracket_pass_from(s, j + 1, (k + 1) as nat).out);
            }
        } else {
            lemma_bracket_pass_count(s, p + 1, k);
            assert(rest =~= seq![s[p]] + s.subrange(p + 1, s.len() as int));
            lemma_count_opens_concat(seq![s[p]], s.subrange(p + 1, s.len() as int));
            lemma_count_opens_concat(
                seq![s[p]],
                bracket_pass_from(s, p + 1, k).out,
            );
        }
    } else {
        assert(s.subrange(p, s.len() as int) =~= Seq::<char>::empty());
    }
}

/// A pass that matched nothing also changed nothing, so stopping when no
/// span matched is the same as stopping when the text stops changing.
pub proof fn lemma_bracket_pass_id(s: Seq<char>, p: int, k: nat)
    requires
        0 <= p <= s.len(),
        bracket_pass_from(s, p, k).matches == 0,
    ensures
        bracket_pass_from(s, p, k).out == s.subrange(p, s.len() as int),
        bracket_pass_from(s, p, k).entries == Seq::<Seq<char>>::empty(),
    decreases s.len() - p,
{
    if p < s.len() {
        lemma_bracket_pass_id(s, p + 1, k);
        assert(s.subrange(p, s.len() as int) =~= seq![s[p]] + s.subrange(p + 1, s.len() as int));
    } else {
        assert(s.subrange(p, s.len() as int) =~= Seq::<char>::empty());
    }
}

/// Result of the bracket fixed point: the fully collapsed text and the
/// bracket table, in the order the spans were collapsed.
pub struct BracketLayers {
    pub out: Seq<char>,
    pub entries: Seq<Seq<char>>,
}

/// Collapse innermost spans pass after pass until a pass changes nothing.
pub open spec fn bracket_fixpoint(s: Seq<char>, k: nat) -> BracketLayers
    decreases count_opens(s),
    via bracket_fixpoint_dec
{
    let pass = bracket_pass_from(s, 0, k);
    if pass.matches == 0 {
        BracketLayers { out: s, entries: Seq::empty() }
    } else {
        let rest = bracket_fixpoint(pass.out, (k + pass.entries.len()) as nat);
        BracketLayers { out: rest.out, entries: pass.entries + rest.entries }
    }
}

#[via_fn]
proof fn bracket_fixpoint_dec(s: Seq<char>, k: nat) {
    let pass = bracket_pass_from(s, 0, k);
    if pass.matches != 0 {
        lemma_bracket_pass_count(s, 0, k);
        assert(s.subrange(0, s.len() as int) =~= s);
        lemma_count_opens_nonneg(pass.out);
    }
}

/// The node, if any, contributed by the trailing text after the last
/// bracket placeholder: phrases reinserted, blank segments dropped.
pub open spec fn trailing_nodes(run: Seq<char>, npk: Seq<Seq<char>>, pk: Seq<Seq<char>>) -> Seq<
    LQModel,
> {
    let rr = combine_spec(run, npk, pk);
    if blank_spec(rr) {
        seq![]
    } else {
        seq![LQModel::Text(rr)]
    }
}

/// Whether the text run immediately before a bracket placeholder marks the
/// bracket as negated: it is not blank and ends in `-` with no space.
pub open spec fn run_neg(run: Seq<char>) -> bool {
    !blank_spec(run) && run.len() > 0 && run.last() == '-'
}

/// The node, if any, contributed by the text run immediately before a
/// bracket placeholder: a blank run is skipped; otherwise a trailing `-` is
/// stripped, phrases are reinserted, and the result is kept if not blank.
pub open spec fn run_nodes(run: Seq<char>, npk: Seq<Seq<char>>, pk: Seq<Seq<char>>) -> Seq<
    LQModel,
> {
    if blank_spec(run) {
        seq![]
    } else {
        let run2 = if run.len() > 0 && run.last() == '-' {
            run.drop_last()
        } else {
            run
        };
        trailing_nodes(run2, npk, pk)
    }
}

/// A bracket placeholder `（<digits>）` begins exactly at position `p`.
pub open spec fn ph_b_at(s: Seq<char>, p: int) -> bool {
    p + 1 < s.len() && s[p] == '\u{FF08}' && is_digit_char(s[p + 1]) && {
        let j = skip_digits(s, p + 1);
        j < s.len() && s[j] == '\u{FF09}'
    }
}

/// Walk the collapsed text from position `p` with the current text run
/// starting at `r`: each placeholder closes the run (possibly marking
/// negation) and opens its table entry recursively; entries above `bound`
/// are dropped.  Entry `m` is laid out with bound `m - 1`: a collapsed span
/// can only mention spans collapsed before it.
pub open spec fn nodes_from(
    s: Seq<char>,
    r: int,
    p: int,
    table: Seq<Seq<char>>,
    bound: nat,
    npk: Seq<Seq<char>>,
    pk: Seq<Seq<char>>,
) -> Seq<LQModel>
    decreases bound, s.len() - p,
    via nodes_from_dec
{
    if p < 0 || p >= s.len() || r < 0 || r > p {
        trailing_nodes(s.subrange(r, s.len() as int), npk, pk)
    } else if ph_b_at(s, p) {
        let run = s.subrange(r, p);
        let j = skip_digits(s, p + 1);
        let m = digits_val(s.subrange(p + 1, j));
        let grp: Seq<LQModel> = if m > usize::MAX as int {
            seq![]
        } else if 1 <= m <= bound {
            let sub = nodes_from(table[m - 1], 0, 0, table, (m - 1) as nat, npk, pk);
            if run_neg(run) {
                seq![LQModel::NegGroup(sub)]
            } else {
                seq![LQModel::Group(sub)]
            }
        } else {
            seq![]
        };
        run_nodes(run, npk, pk) + grp + nodes_from(s, j + 1, j + 1, table, bound, npk, pk)
    } else {
        nodes_from(s, r, p + 1, table, bound, npk, pk)
    }
}

#[via_fn]
proof fn nodes_from_dec(
    s: Seq<char>,
    r: int,
    p: int,
    table: Seq<Seq<char>>,
    bound: nat,
    npk: Seq<Seq<char>>,
    pk: Seq<Seq<char>>,
) {
    if 0 <= p < s.len() && 0 <= r <= p && ph_b_at(s, p) {
        lemma_skip_digits(s, p + 1);
    }
}

/// The full bracket-layering pass over a raw query: normalize quotes,
/// extract phrases, normalize the remaining symbols, collapse brackets to a
/// fixed point, and lay the result out as a tree with phrases reinserted
/// into every text segment.  An unmatched or reversed parenthesis never
/// forms a group and stays as literal text inside its segment.
pub open spec fn parse_spec(q: Seq<char>) -> Seq<LQModel> {
    let e = extract_spec(norm_quotes_spec(q));
    let ns = norm_syms_spec(e.text);
    let f = bracket_fixpoint(ns, 0);
    nodes_from(f.out, 0, 0, f.entries, f.entries.len(), e.npk, e.pk)
}

/// The skeleton word standing for an `AND` connective.
pub open spec fn and_word() -> Seq<char> {
    seq!['a', 'n', 'd']
}

/// The skeleton word standing for an `OR` connective.
pub open spec fn or_word() -> Seq<char> {
    seq!['o', 'r']
}

/// The skeleton fragment ` <L> <i> <R> ` written for text segment `i`,
/// whose connectives are `or` where the segment's boundary flags say so and
/// `and` otherwise.
pub open spec fn skel_text_piece(i: nat, st: bool, en: bool) -> Seq<char> {
    seq![' '] + (if st {
        or_word()
    } else {
        and_word()
    }) + seq![' '] + digits_spec(i) + seq![' '] + (if en {
        or_word()
    } else {
        and_word()
    }) + seq![' ']
}

/// The skeleton fragment ` <i> ` written for bracket group `i`.
pub open spec fn skel_group_piece(i: nat) -> Seq<char> {
    seq![' '] + digits_spec(i) + seq![' ']
}

/// The skeleton string and condition accumulator built over a node list.
pub struct WalkOut {
    pub skel: Seq<char>,
    pub conds: Seq<CondModel>,
}

/// Walk the nodes starting at accumulator position `base`: each text
/// segment is tokenized and contributes its boundary flags to the skeleton;
/// each group recurs into the whole recombination.
pub open spec fn walk_nodes(nodes: Seq<LQModel>, base: nat) -> WalkOut
    decreases nodes, 0nat,
    via walk_nodes_dec
{
    if nodes.len() == 0 {
        WalkOut { skel: Seq::empty(), conds: Seq::empty() }
    } else {
        let rest = walk_nodes(nodes.drop_first(), (base + 1) as nat);
        match nodes[0] {
            LQModel::Text(t) => {
                let lo = leaf_cond_spec(t);
                WalkOut {
                    skel: skel_text_piece(base, lo.starts_or, lo.ends_or) + rest.skel,
                    conds: seq![lo.cond] + rest.conds,
                }
            },
            LQModel::Group(sub) => WalkOut {
                skel: skel_group_piece(base) + rest.skel,
                conds: seq![tree_cond_spec(sub)] + rest.conds,
            },
            LQModel::NegGroup(sub) => WalkOut {
                skel: skel_group_piece(base) + rest.skel,
                conds: seq![CondModel::Not(Box::new(tree_cond_spec(sub)))] + rest.conds,
            },
        }
    }
}

#[via_fn]
proof fn walk_nodes_dec(nodes: Seq<LQModel>, base: nat) {
    if nodes.len() > 0 {
        assert(decreases_to!(nodes => nodes[0]));
    }
}

/// The accumulator entry a skeleton keyword names: its text read as a
/// plain run of decimal digits indexing `conds`, anything unresolvable
/// giving `Empty`.
pub open spec fn lookup_spec(d: Seq<char>, conds: Seq<CondModel>) -> CondModel {
    if d.len() > 0 && (forall|k: int| 0 <= k < d.len() ==> is_digit_char(#[trigger] d[k]))
        && digits_val(d) <= usize::MAX as int && digits_val(d) < conds.len() {
        conds[digits_val(d)]
    } else {
        CondModel::Empty
    }
}

/// Substitute accumulator entries into the second level of the skeleton
/// condition: only index keywords survive.
pub open spec fn subst_l2(l2: Seq<CondModel>, conds: Seq<CondModel>) -> Seq<CondModel>
    decreases l2,
{
    if l2.len() == 0 {
        Seq::empty()
    } else {
        seq![
            match l2[0] {
                CondModel::Keyword(d) => lookup_spec(d, conds),
                _ => CondModel::Empty,
            },
        ] + subst_l2(l2.drop_first(), conds)
    }
}

/// Substitute accumulator entries into the first level of the skeleton
/// condition: index keywords resolve, `And` nodes recur one level, and
/// anything else becomes `Empty`.
pub open spec fn subst_l1(l1: Seq<CondModel>, conds: Seq<CondModel>) -> Seq<CondModel>
    decreases l1,
{
    if l1.len() == 0 {
        Seq::empty()
    } else {
        seq![
            match l1[0] {
                CondModel::Keyword(d) => lookup_spec(d, conds),
                CondModel::Operator(op2, l2) => if op2 == Operator::And {
                    CondModel::Operator(Operator::And, subst_l2(l2, conds))
                } else {
                    CondModel::Empty
                },
                _ => CondModel::Empty,
            },
        ] + subst_l1(l1.drop_first(), conds)
    }
}

/// Substitute accumulator entries into the skeleton condition, which the
/// tokenizer only ever shapes as a single keyword or a two-level tree.
pub open spec fn substitute_spec(c: CondModel, conds: Seq<CondModel>) -> CondModel {
    match c {
        CondModel::Keyword(d) => lookup_spec(d, conds),
        CondModel::Operator(op, l1) => CondModel::Operator(op, subst_l1(l1, conds)),
        _ => CondModel::Empty,
    }
}

/// Recombination of a layered tree into one condition: walk the nodes
/// building the skeleton string and the accumulator, tokenize the skeleton
/// with the same boolean grammar, substitute the real conditions for its
/// index keywords, and simplify.
pub open spec fn tree_cond_spec(nodes: Seq<LQModel>) -> CondModel
    decreases nodes, 1nat,
{
    let w = walk_nodes(nodes, 0);
    let lo = leaf_cond_spec(w.skel);
    simplify_spec(substitute_spec(lo.cond, w.conds))
}

/// A pass records at most one table entry per match.
pub proof fn lemma_bracket_pass_entries(s: Seq<char>, p: int, k: nat)
    ensures
        bracket_pass_from(s, p, k).entries.len() <= bracket_pass_from(s, p, k).matches,
    decreases s.len() - p,
{
    if 0 <= p < s.len() {
        if bracket_match_at(s, p) {
            lemma_skip_non_paren(s, p + 1);
            let j = skip_non_paren(s, p + 1);
            lemma_bracket_pass_entries(s, j + 1, k);
            lemma_bracket_pass_entries(s, j + 1, (k + 1) as nat);
        } else {
            lemma_bracket_pass_entries(s, p + 1, k);
        }
    }
}

/// There are no more opening parentheses than characters.
pub proof fn lemma_count_opens_len(s: Seq<char>)
    ensures
        count_opens(s) <= s.len(),
    decreases s,
{
    if s.len() > 0 {
        lemma_count_opens_len(s.drop_first());
    }
}

/// Executable bracket-collapsing pass, numbering new entries from
/// `k0 + 1`.  Returns the rewritten text, the new entries, and whether any
/// span matched.
#[verifier::loop_isolation(false)]
fn bracket_pass_exec(v: &Vec<char>, k0: usize) -> (r: (Vec<char>, Vec<Vec<char>>, bool))
    requires
        k0 + count_opens(v@) <= usize::MAX,
    ensures
        r.0@ == bracket_pass_from(v@, 0, k0 as nat).out,
        vecs_view(r.1@) == bracket_pass_from(v@, 0, k0 as nat).entries,
        r.2 == (bracket_pass_from(v@, 0, k0 as nat).matches > 0),
{
    let mut out: Vec<char> = Vec::new();
    let mut entries: Vec<Vec<char>> = Vec::new();
    let mut changed = false;
    let ghost mut mcount: nat = 0nat;
    let mut p: usize = 0;
    proof {
        lemma_count_opens_nonneg(v@);
        assert(v@.subrange(0, v@.len() as int) =~= v@);
        assert(vecs_view(entries@) =~= Seq::<Seq<char>>::empty());
    }
    while p < v.len()
        invariant
            p <= v@.len(),
            changed == (mcount > 0),
            entries@.len() + count_opens(v@.subrange(p as int, v@.len() as int)) <= count_opens(
                v@,
            ),
            bracket_pass_from(v@, 0, k0 as nat).out == out@ + bracket_pass_from(
                v@,
                p as int,
                (k0 + entries@.len()) as nat,
            ).out,
            bracket_pass_from(v@, 0, k0 as nat).entries == vecs_view(entries@)
                + bracket_pass_from(v@, p as int, (k0 + entries@.len()) as nat).entries,
            bracket_pass_from(v@, 0, k0 as nat).matches == mcount + bracket_pass_from(
                v@,
                p as int,
                (k0 + entries@.len()) as nat,
            ).matches,
        decreases v@.len() - p,
    {
        let ghost k = (k0 + entries@.len()) as nat;
        let ghost tailspec = bracket_pass_from(v@, p as int, k);
        let ghost rest = v@.subrange(p as int, v@.len() as int);
        let mut matched: Option<usize> = Option::None;
        if v[p] == '(' {
            let mut j: usize = p + 1;
            while j < v.len()
                invariant
                    p + 1 <= j <= v@.len(),
                    skip_non_paren(v@, p + 1 as int) == skip_non_paren(v@, j as int),
                decreases v@.len() - j,
            {
                if v[j] == '(' || v[j] == ')' {
                    break ;
                }
                j = j + 1;
            }
            proof {
                lemma_skip_non_paren(v@, p + 1 as int);
            }
            if j < v.len() && v[j] == ')' {
                matched = Option::Some(j);
            }
        }
        match matched {
            Option::Some(j) => {
                proof {
                    assert(bracket_match_at(v@, p as int));
                    lemma_skip_non_paren(v@, p + 1 as int);
                    // the opening parenthesis at `p` accounts for one count
                    assert(rest =~= seq![v@[p as int]] + (v@.subrange(p + 1 as int, j as int)
                        + (seq![v@[j as int]] + v@.subrange(j + 1 as int, v@.len() as int))));
                    lemma_count_opens_concat(
                        seq![v@[p as int]],
                        v@.subrange(p + 1 as int, j as int) + (seq![v@[j as int]] + v@.subrange(
                            j + 1 as int,
                            v@.len() as int,
                        )),
                    );
                    lemma_count_opens_concat(
                        v@.subrange(p + 1 as int, j as int),
                        seq![v@[j as int]] + v@.subrange(j + 1 as int, v@.len() as int),
                    );
                    lemma_count_opens_concat(
                        seq![v@[j as int]],
                        v@.subrange(j + 1 as int, v@.len() as int),
                    );
                    assert forall|x: int| 0 <= x < v@.subrange(p + 1 as int, j as int).len()
                        implies #[trigger] v@.subrange(p + 1 as int, j as int)[x] != '(' by {
                        assert(v@.subrange(p + 1 as int, j as int)[x] == v@[p + 1 + x]);
                    }
                    lemma_count_opens_zero(v@.subrange(p + 1 as int, j as int));
                    assert(seq![v@[p as int]].drop_first() =~= Seq::<char>::empty());
                    assert(seq![v@[j as int]].drop_first() =~= Seq::<char>::empty());
                    assert(count_opens(Seq::<char>::empty()) == 0);
                    assert(count_opens(seq![v@[p as int]]) == 1);
                    assert(count_opens(seq![v@[j as int]]) == 0);
                    assert(count_opens(rest) == 1 + count_opens(
                        v@.subrange(j + 1 as int, v@.len() as int),
                    ));
                    lemma_count_opens_nonneg(v@.subrange(j + 1 as int, v@.len() as int));
                }
                let content = crate::text::copy_range(v, p + 1, j);
                changed = true;
                proof {
                    mcount = mcount + 1;
                }
                if crate::text::chars_blank(&content) {
                    proof {
                        assert(tailspec.out == bracket_pass_from(v@, j + 1 as int, k).out);
                        assert(tailspec.entries == bracket_pass_from(v@, j + 1 as int, k).entries);
                        assert(tailspec.matches == bracket_pass_from(v@, j + 1 as int, k).matches
                            + 1);
                    }
                    p = j + 1;
                } else {
                    let idx = k0 + entries.len() + 1;
                    let mut ph: Vec<char> = Vec::new();
                    ph.push('\u{FF08}');
                    let mut ds = crate::text::to_digits(idx);
                    ph.append(&mut ds);
                    ph.push('\u{FF09}');
                    proof {
                        assert(ph@ =~= bracket_placeholder(idx as nat));
                    }
                    let ghost out0 = out@;
                    let ghost ph0 = ph@;
                    out.append(&mut ph);
                    let ghost entries0 = entries@;
                    entries.push(content);
                    proof {
                        let tail = bracket_pass_from(v@, j + 1 as int, (k + 1) as nat);
                        assert(tailspec.out == bracket_placeholder((k + 1) as nat) + tail.out);
                        assert(tailspec.entries == seq![v@.subrange(p + 1 as int, j as int)]
                            + tail.entries);
                        assert(out@ == out0 + ph0);
                        assert(vecs_view(entries@) =~= vecs_view(entries0) + seq![content@]);
                        assert((out0 + ph0) + tail.out =~= out0 + (ph0 + tail.out));
                        assert((vecs_view(entries0) + seq![content@]) + tail.entries =~= vecs_view(
                            entries0,
                        ) + (seq![content@] + tail.entries));
                    }
                    p = j + 1;
                }
            },
            Option::None => {
                proof {
                    assert(!bracket_match_at(v@, p as int));
                    let tail = bracket_pass_from(v@, p + 1 as int, k);
                    assert(tailspec.out == seq![v@[p as int]] + tail.out);
                    assert(tailspec.entries == tail.entries);
                    assert(rest =~= seq![v@[p as int]] + v@.subrange(p + 1 as int, v@.len() as int));
                    lemma_count_opens_concat(
                        seq![v@[p as int]],
                        v@.subrange(p + 1 as int, v@.len() as int),
                    );
                    assert(seq![v@[p as int]].drop_first() =~= Seq::<char>::empty());
                    assert(count_opens(Seq::<char>::empty()) == 0);
                    lemma_count_opens_nonneg(v@.subrange(p + 1 as int, v@.len() as int));
                    assert(count_opens(rest) >= count_opens(
                        v@.subrange(p + 1 as int, v@.len() as int),
                    ));
                }
                let ghost out0 = out@;
                out.push(v[p]);
                proof {
                    assert(out@ =~= out0 + seq![v@[p as int]]);
                    assert((out0 + seq![v@[p as int]]) + bracket_pass_from(
                        v@,
                        p + 1 as int,
                        k,
                    ).out =~= out0 + (seq![v@[p as int]] + bracket_pass_from(
                        v@,
                        p + 1 as int,
                        k,
                    ).out));
                }
                p = p + 1;
            },
        }
    }
    proof {
        assert(bracket_pass_from(v@, p as int, (k0 + entries@.len()) as nat).out
            =~= Seq::<char>::empty());
        assert(bracket_pass_from(v@, p as int, (k0 + entries@.len()) as nat).entries
            =~= Seq::<Seq<char>>::empty());
        assert(out@ =~= bracket_pass_from(v@, 0, k0 as nat).out);
        assert(vecs_view(entries@) =~= bracket_pass_from(v@, 0, k0 as nat).entries);
    }
    (out, entries, changed)
}

/// Run collapsing passes to the fixed point, accumulating the table.
fn bracket_layers_exec(v: Vec<char>) -> (r: (Vec<char>, Vec<Vec<char>>))
    ensures
        r.0@ == bracket_fixpoint(v@, 0).out,
        vecs_view(r.1@) == bracket_fixpoint(v@, 0).entries,
{
    let n = v.len();
    let ghost v0 = v@;
    proof {
        assert(v0.len() == n);
    }
    let mut cur = v;
    let mut table: Vec<Vec<char>> = Vec::new();
    proof {
        lemma_count_opens_len(v0);
        lemma_count_opens_nonneg(v0);
        assert(vecs_view(table@) =~= Seq::<Seq<char>>::empty());
        assert(vecs_view(table@) + bracket_fixpoint(cur@, table@.len() as nat).entries
            =~= bracket_fixpoint(cur@, table@.len() as nat).entries);
    }
    loop
        invariant
            table@.len() + count_opens(cur@) <= count_opens(v0),
            count_opens(v0) <= v0.len(),
            v0.len() <= usize::MAX,
            bracket_fixpoint(v0, 0).out == bracket_fixpoint(cur@, table@.len() as nat).out,
            bracket_fixpoint(v0, 0).entries == vecs_view(table@) + bracket_fixpoint(
                cur@,
                table@.len() as nat,
            ).entries,
        ensures
            bracket_fixpoint(v0, 0).out == cur@,
            bracket_fixpoint(v0, 0).entries == vecs_view(table@),
        decreases count_opens(cur@),
    {
        let k0 = table.len();
        proof {
            lemma_count_opens_nonneg(cur@);
        }
        let pass = bracket_pass_exec(&cur, k0);
        let (out, mut es, changed) = pass;
        proof {
            lemma_bracket_pass_count(cur@, 0, k0 as nat);
            lemma_bracket_pass_entries(cur@, 0, k0 as nat);
            assert(cur@.subrange(0, cur@.len() as int) =~= cur@);
        }
        if !changed {
            proof {
                assert(bracket_fixpoint(cur@, k0 as nat).out == cur@);
                assert(bracket_fixpoint(cur@, k0 as nat).entries =~= Seq::<Seq<char>>::empty());
                assert(vecs_view(table@) + Seq::<Seq<char>>::empty() =~= vecs_view(table@));
            }
            break ;
        }
        let ghost passspec = bracket_pass_from(cur@, 0, k0 as nat);
        let ghost table0 = table@;
        let ghost es0 = es@;
        proof {
            let rest = bracket_fixpoint(passspec.out, (k0 as nat + passspec.entries.len()) as nat);
            assert(bracket_fixpoint(cur@, k0 as nat).out == rest.out);
            assert(bracket_fixpoint(cur@, k0 as nat).entries == passspec.entries + rest.entries);
        }
        cur = out;
        table.append(&mut es);
        proof {
            assert(vecs_view(table@) =~= vecs_view(table0) + vecs_view(es0));
            assert((vecs_view(table0) + vecs_view(es0)) + bracket_fixpoint(
                cur@,
                table@.len() as nat,
            ).entries =~= vecs_view(table0) + (vecs_view(es0) + bracket_fixpoint(
                cur@,
                table@.len() as nat,
            ).entries));
            lemma_count_opens_nonneg(cur@);
        }
    }
    (cur, table)
}

/// Executable layout of the collapsed text as a layered tree.
#[verifier::loop_isolation(false)]
fn combine_exec(
    s: &Vec<char>,
    table: &Vec<Vec<char>>,
    bound: usize,
    npk: &Vec<Vec<char>>,
    pk: &Vec<Vec<char>>,
) -> (r: Vec<LayeredQuery>)
    requires
        bound <= table@.len(),
    ensures
        lq_model_seq(r@) == nodes_from(
            s@,
            0,
            0,
            vecs_view(table@),
            bound as nat,
            vecs_view(npk@),
            vecs_view(pk@),
        ),
    decreases bound,
{
    let ghost tv = vecs_view(table@);
    let ghost nv = vecs_view(npk@);
    let ghost pv = vecs_view(pk@);
    let mut out: Vec<LayeredQuery> = Vec::new();
    let mut start: usize = 0;
    let mut p: usize = 0;
    proof {
        assert(lq_model_seq(out@) =~= Seq::<LQModel>::empty());
    }
    while p < s.len()
        invariant
            start <= p <= s@.len(),
            nodes_from(s@, 0, 0, tv, bound as nat, nv, pv) == lq_model_seq(out@) + nodes_from(
                s@,
                start as int,
                p as int,
                tv,
                bound as nat,
                nv,
                pv,
            ),
        decreases s@.len() - p,
    {
        let ghost tailspec = nodes_from(s@, start as int, p as int, tv, bound as nat, nv, pv);
        let mut matched: Option<usize> = Option::None;
        if s[p] == '\u{FF08}' && p + 1 < s.len() && crate::text::digit_char(s[p + 1]) {
            let j = crate::text::skip_digits_exec(s, p + 1);
            proof {
                lemma_skip_digits(s@, p + 1 as int);
            }
            if j < s.len() && s[j] == '\u{FF09}' {
                matched = Option::Some(j);
            }
        }
        match matched {
            Option::Some(j) => {
                proof {
                    assert(ph_b_at(s@, p as int));
                    lemma_skip_digits(s@, p + 1 as int);
                }
                let ghost runspec = s@.subrange(start as int, p as int);
                let run = crate::text::copy_range(s, start, p);
                // the text run before the placeholder
                let mut piece: Vec<LayeredQuery> = Vec::new();
                let mut neg = false;
                proof {
                    assert(lq_model_seq(piece@) =~= Seq::<LQModel>::empty());
                }
                if !crate::text::chars_blank(&run) {
                    let mut run2 = run;
                    if run2.len() > 0 && run2[run2.len() - 1] == '-' {
                        neg = true;
                        run2.pop();
                    }
                    let ghost run2spec: Seq<char> = if runspec.len() > 0 && runspec.last() == '-' {
                        runspec.drop_last()
                    } else {
                        runspec
                    };
                    proof {
                        assert(run2@ == run2spec);
                    }
                    let rr = crate::query::combine_chars(&run2, npk, pk);
                    if !crate::text::chars_blank(&rr) {
                        let t = Query::new(crate::text::chars_string(&rr));
                        let node = LayeredQuery::Query(t);
                        proof {
                            assert(node.model() == LQModel::Text(combine_spec(run2spec, nv, pv)));
                        }
                        let ghost piece0 = piece@;
                        piece.push(node);
                        proof {
                            lemma_lq_model_seq_push(piece0, node);
                        }
                    }
                }
                proof {
                    assert(neg == run_neg(runspec));
                    assert(lq_model_seq(piece@) =~= run_nodes(runspec, nv, pv));
                }
                // the bracket group itself
                let ghost grpspec: Seq<LQModel> = {
                    let m = digits_val(s@.subrange(p + 1 as int, j as int));
                    if m > usize::MAX as int {
                        seq![]
                    } else if 1 <= m <= bound as nat {
                        let sub = nodes_from(tv[m - 1], 0, 0, tv, (m - 1) as nat, nv, pv);
                        if run_neg(runspec) {
                            seq![LQModel::NegGroup(sub)]
                        } else {
                            seq![LQModel::Group(sub)]
                        }
                    } else {
                        seq![]
                    }
                };
                match crate::text::parse_usize(s, p + 1, j) {
                    Option::Some(u) => {
                        if 1 <= u && u <= bound {
                            let sub = combine_exec(&table[u - 1], table, u - 1, npk, pk);
                            let ghost subm = lq_model_seq(sub@);
                            let node = if neg {
                                LayeredQuery::NegativeBracket(LayeredQueries(sub))
                            } else {
                                LayeredQuery::Bracket(LayeredQueries(sub))
                            };
                            proof {
                                if neg {
                                    assert(node.model() == LQModel::NegGroup(subm));
                                } else {
                                    assert(node.model() == LQModel::Group(subm));
                                }
                            }
                            let ghost piece0 = piece@;
                            let ghost nodem = node.model();
                            piece.push(node);
                            proof {
                                lemma_lq_model_seq_push(piece0, node);
                                assert(lq_model_seq(piece@) =~= run_nodes(runspec, nv, pv)
                                    + grpspec);
                            }
                        } else {
                            proof {
                                assert(grpspec =~= Seq::<LQModel>::empty());
                                assert(lq_model_seq(piece@) =~= run_nodes(runspec, nv, pv)
                                    + grpspec);
                            }
                        }
                    },
                    Option::None => {
                        proof {
                            assert(grpspec =~= Seq::<LQModel>::empty());
                            assert(lq_model_seq(piece@) =~= run_nodes(runspec, nv, pv) + grpspec);
                        }
                    },
                }
                let ghost out0 = out@;
                let ghost piecem = lq_model_seq(piece@);
                let ghost piecev = piece@;
                let mut piece2 = piece;
                out.append(&mut piece2);
                proof {
                    assert(out@.subrange(out0.len() as int, out@.len() as int) =~= piecev);
                    lemma_lq_concat(out0, piecem, out@);
                    assert(tailspec == (run_nodes(runspec, nv, pv) + grpspec) + nodes_from(
                        s@,
                        j + 1 as int,
                        j + 1 as int,
                        tv,
                        bound as nat,
                        nv,
                        pv,
                    ));
                    assert((lq_model_seq(out0) + piecem) + nodes_from(
                        s@,
                        j + 1 as int,
                        j + 1 as int,
                        tv,
                        bound as nat,
                        nv,
                        pv,
                    ) =~= lq_model_seq(out0) + (piecem + nodes_from(
                        s@,
                        j + 1 as int,
                        j + 1 as int,
                        tv,
                        bound as nat,
                        nv,
                        pv,
                    )));
                }
                p = j + 1;
                start = p;
            },
            Option::None => {
                proof {
                    assert(!ph_b_at(s@, p as int));
                    assert(tailspec == nodes_from(
                        s@,
                        start as int,
                        p + 1 as int,
                        tv,
                        bound as nat,
                        nv,
                        pv,
                    ));
                }
                p = p + 1;
            },
        }
    }
    // trailing text after the last placeholder
    let ghost runspec = s@.subrange(start as int, s@.len() as int);
    let run = crate::text::copy_range(s, start, s.len());
    let rr = crate::query::combine_chars(&run, npk, pk);
    if !crate::text::chars_blank(&rr) {
        let ghost out0 = out@;
        let t = Query::new(crate::text::chars_string(&rr));
        let node = LayeredQuery::Query(t);
        let ghost nodem = node.model();
        out.push(node);
        proof {
            lemma_lq_model_seq_push(out0, node);
            assert(nodes_from(s@, start as int, p as int, tv, bound as nat, nv, pv)
                == trailing_nodes(runspec, nv, pv));
            assert(trailing_nodes(runspec, nv, pv) =~= seq![nodem]);
            assert(lq_model_seq(out@) =~= lq_model_seq(out0) + trailing_nodes(runspec, nv, pv));
        }
    } else {
        proof {
            assert(nodes_from(s@, start as int, p as int, tv, bound as nat, nv, pv)
                == trailing_nodes(runspec, nv, pv));
            assert(trailing_nodes(runspec, nv, pv) =~= Seq::<LQModel>::empty());
            assert(lq_model_seq(out@) + trailing_nodes(runspec, nv, pv) =~= lq_model_seq(out@));
        }
    }
    out
}

/// `lq_model_seq` distributes over list concatenation.
proof fn lemma_lq_concat(a: Seq<LayeredQuery>, bm: Seq<LQModel>, whole: Seq<LayeredQuery>)
    requires
        whole.len() == a.len() + bm.len(),
        forall|i: int| 0 <= i < a.len() ==> whole[i] == a[i],
        ({
            let b = whole.subrange(a.len() as int, whole.len() as int);
            lq_model_seq(b) == bm
        }),
    ensures
        lq_model_seq(whole) == lq_model_seq(a) + bm,
{
    let b = whole.subrange(a.len() as int, whole.len() as int);
    lemma_lq_model_seq(whole);
    lemma_lq_model_seq(a);
    lemma_lq_model_seq(b);
    assert forall|i: int| 0 <= i < whole.len() implies lq_model_seq(whole)[i] == (lq_model_seq(a)
        + bm)[i] by {
        assert(lq_model_seq(whole)[i] == whole[i].model());
        if i < a.len() {
            assert(lq_model_seq(a)[i] == a[i].model());
        } else {
            assert(b[i - a.len()] == whole[i]);
            assert(lq_model_seq(b)[i - a.len()] == b[i - a.len()].model());
        }
    }
    assert(lq_model_seq(whole) =~= lq_model_seq(a) + bm);
}

/// Build the skeleton fragment for text segment `i`.
fn skel_text_exec(i: usize, st: bool, en: bool) -> (r: Vec<char>)
    ensures
        r@ == skel_text_piece(i as nat, st, en),
{
    let mut r: Vec<char> = Vec::new();
    r.push(' ');
    if st {
        r.push('o');
        r.push('r');
    } else {
        r.push('a');
        r.push('n');
        r.push('d');
    }
    r.push(' ');
    let mut ds = crate::text::to_digits(i);
    r.append(&mut ds);
    r.push(' ');
    if en {
        r.push('o');
        r.push('r');
    } else {
        r.push('a');
        r.push('n');
        r.push('d');
    }
    r.push(' ');
    proof {
        assert(r@ =~= skel_text_piece(i as nat, st, en));
    }
    r
}

/// Build the skeleton fragment for bracket group `i`.
fn skel_group_exec(i: usize) -> (r: Vec<char>)
    ensures
        r@ == skel_group_piece(i as nat),
{
    let mut r: Vec<char> = Vec::new();
    r.push(' ');
    let mut ds = crate::text::to_digits(i);
    r.append(&mut ds);
    r.push(' ');
    proof {
        assert(r@ =~= skel_group_piece(i as nat));
    }
    r
}

/// Resolve one skeleton index against the accumulator.
fn lookup_exec(d: &String, conds: &Vec<Condition>) -> (r: Condition)
    ensures
        r@ == lookup_spec(d@, model_seq(conds@)),
{
    proof {
        crate::condition::lemma_model_seq(conds@);
    }
    let v = crate::text::str_chars(d.as_str());
    let all_digits = {
        proof {
            lemma_skip_digits(v@, 0);
        }
        crate::text::skip_digits_exec(&v, 0) == v.len()
    };
    if v.len() > 0 && all_digits {
        proof {
            lemma_skip_digits(v@, 0);
        }
        match crate::text::parse_usize(&v, 0, v.len()) {
            Option::Some(u) => {
                proof {
                    assert(v@.subrange(0, v@.len() as int) =~= v@);
                }
                if u < conds.len() {
                    conds[u].clone()
                } else {
                    Condition::Empty
                }
            },
            Option::None => {
                proof {
                    assert(v@.subrange(0, v@.len() as int) =~= v@);
                }
                Condition::Empty
            },
        }
    } else {
        Condition::Empty
    }
}

/// Substitute accumulator entries into the second level of the skeleton
/// condition.
#[verifier::loop_isolation(false)]
fn subst_l2_exec(l2: Vec<Condition>, conds: &Vec<Condition>) -> (r: Vec<Condition>)
    ensures
        model_seq(r@) == subst_l2(model_seq(l2@), model_seq(conds@)),
{
    let ghost l20 = model_seq(l2@);
    let ghost condsm = model_seq(conds@);
    let mut rest = l2;
    let mut out: Vec<Condition> = Vec::new();
    proof {
        assert(model_seq(out@) =~= Seq::<CondModel>::empty());
        assert(model_seq(out@) + subst_l2(model_seq(rest@), condsm) =~= subst_l2(
            model_seq(rest@),
            condsm,
        ));
    }
    while rest.len() > 0
        invariant
            subst_l2(l20, condsm) == model_seq(out@) + subst_l2(model_seq(rest@), condsm),
        decreases rest@.len(),
    {
        let ghost r0 = rest@;
        let x = rest.remove(0);
        proof {
            assert(rest@ =~= r0.drop_first());
            assert(model_seq(r0) == seq![x.model()] + model_seq(r0.drop_first()));
            assert(model_seq(r0)[0] == x.model());
            assert(model_seq(r0).drop_first() =~= model_seq(r0.drop_first()));
        }
        let y = match x {
            Condition::Keyword(d) => lookup_exec(&d, conds),
            _ => Condition::Empty,
        };
        let ghost out0 = out@;
        let ghost ym = y@;
        out.push(y);
        proof {
            crate::condition::lemma_model_seq_push(out0, out@[out@.len() - 1]);
            assert((model_seq(out0) + seq![ym]) + subst_l2(model_seq(rest@), condsm) =~= model_seq(
                out0,
            ) + (seq![ym] + subst_l2(model_seq(rest@), condsm)));
        }
    }
    proof {
        assert(model_seq(rest@) =~= Seq::<CondModel>::empty());
        assert(subst_l2(Seq::<CondModel>::empty(), condsm) =~= Seq::<CondModel>::empty());
        assert(model_seq(out@) + Seq::<CondModel>::empty() =~= model_seq(out@));
    }
    out
}

/// Substitute accumulator entries into the skeleton condition: it is either
/// a single index keyword or the two-level `Or` of `And` tree the tokenizer
/// produces, and its index leaves name the real conditions.
#[verifier::loop_isolation(false)]
fn substitute_exec(c: Condition, conds: &Vec<Condition>) -> (r: Condition)
    ensures
        r@ == substitute_spec(c@, model_seq(conds@)),
{
    let ghost condsm = model_seq(conds@);
    match c {
        Condition::Keyword(d) => lookup_exec(&d, conds),
        Condition::Operator(op, l1) => {
            let ghost l10 = model_seq(l1@);
            let mut rest = l1;
            let mut out: Vec<Condition> = Vec::new();
            proof {
                assert(model_seq(out@) =~= Seq::<CondModel>::empty());
                assert(model_seq(out@) + subst_l1(model_seq(rest@), condsm) =~= subst_l1(
                    model_seq(rest@),
                    condsm,
                ));
            }
            while rest.len() > 0
                invariant
                    subst_l1(l10, condsm) == model_seq(out@) + subst_l1(model_seq(rest@), condsm),
                decreases rest@.len(),
            {
                let ghost r0 = rest@;
                let x = rest.remove(0);
                proof {
                    assert(rest@ =~= r0.drop_first());
                    assert(model_seq(r0) == seq![x.model()] + model_seq(r0.drop_first()));
                    assert(model_seq(r0)[0] == x.model());
                    assert(model_seq(r0).drop_first() =~= model_seq(r0.drop_first()));
                }
                let y = match x {
                    Condition::Keyword(d) => lookup_exec(&d, conds),
                    Condition::Operator(op2, l2) => {
                        if op2 == Operator::And {
                            let ghost l2m = model_seq(l2@);
                            let inner = subst_l2_exec(l2, conds);
                            let node = Condition::Operator(Operator::And, inner);
                            proof {
                                assert(node@ == CondModel::Operator(
                                    Operator::And,
                                    subst_l2(l2m, condsm),
                                ));
                            }
                            node
                        } else {
                            Condition::Empty
                        }
                    },
                    _ => Condition::Empty,
                };
                let ghost out0 = out@;
                let ghost ym = y@;
                out.push(y);
                proof {
                    crate::condition::lemma_model_seq_push(out0, out@[out@.len() - 1]);
                    assert((model_seq(out0) + seq![ym]) + subst_l1(model_seq(rest@), condsm)
                        =~= model_seq(out0) + (seq![ym] + subst_l1(model_seq(rest@), condsm)));
                }
            }
            proof {
                assert(model_seq(rest@) =~= Seq::<CondModel>::empty());
                assert(subst_l1(Seq::<CondModel>::empty(), condsm) =~= Seq::<CondModel>::empty());
                assert(model_seq(out@) + Seq::<CondModel>::empty() =~= model_seq(out@));
            }
            Condition::Operator(op, out)
        },
        _ => Condition::Empty,
    }
}

impl LayeredQueries {
    /// Layer a raw query: normalize quotes, extract phrases, normalize the
    /// remaining symbols, collapse brackets to a fixed point, and lay the
    /// result out as a tree with the phrases reinserted into every text
    /// segment.  An unmatched or reversed parenthesis stays as literal
    /// text inside its segment.
    pub fn parse(query: Query) -> (r: LayeredQueries)
        ensures
            r@ == parse_spec(query@),
    {
        let q = query.normalize_double_quotation();
        let (q2, npk, pk) = q.extract_phrase_keywords();
        let q3 = q2.normalize_symbols_except_double_quotation();
        let v = crate::text::str_chars(q3.value_ref());
        let (collapsed, table) = bracket_layers_exec(v);
        let npkv = crate::query::from_queries(&npk);
        let pkv = crate::query::from_queries(&pk);
        let nodes = combine_exec(&collapsed, &table, table.len(), &npkv, &pkv);
        LayeredQueries(nodes)
    }

    /// Recombine the layered tree into one condition: tokenize every text
    /// segment, re-tokenize a synthetic skeleton of indices with the same
    /// boolean grammar to resolve how segments and groups bind to their
    /// neighbors, substitute the real conditions back in, and simplify.
    #[verifier::loop_isolation(false)]
    pub fn to_condition(self) -> (r: Condition)
        ensures
            r@ == tree_cond_spec(self@),
        decreases self,
    {
        let ghost orig = self;
        proof {
            assert(decreases_to!(orig => orig.0));
        }
        let LayeredQueries(nodes) = self;
        let mut rest = nodes;
        let n0 = rest.len();
        let mut skel: Vec<char> = Vec::new();
        let mut conds: Vec<Condition> = Vec::new();
        proof {
            assert(rest@.len() == n0);
            assert(model_seq(conds@) =~= Seq::<CondModel>::empty());
            assert(skel@ + walk_nodes(lq_model_seq(rest@), conds@.len() as nat).skel =~= walk_nodes(
                lq_model_seq(rest@),
                conds@.len() as nat,
            ).skel);
            assert(model_seq(conds@) + walk_nodes(lq_model_seq(rest@), conds@.len() as nat).conds
                =~= walk_nodes(lq_model_seq(rest@), conds@.len() as nat).conds);
        }
        while rest.len() > 0
            invariant
                decreases_to!(orig => rest@),
                conds@.len() <= usize::MAX - rest@.len(),
                walk_nodes(orig@, 0).skel == skel@ + walk_nodes(
                    lq_model_seq(rest@),
                    conds@.len() as nat,
                ).skel,
                walk_nodes(orig@, 0).conds == model_seq(conds@) + walk_nodes(
                    lq_model_seq(rest@),
                    conds@.len() as nat,
                ).conds,
            decreases rest@.len(),
        {
            let ghost r0 = rest@;
            let ghost base = conds@.len() as nat;
            let ghost suffix = lq_model_seq(r0);
            proof {
                lemma_lq_model_seq(r0);
                assert(decreases_to!(r0 => r0[0]));
            }
            let node = rest.remove(0);
            proof {
                assert(rest@ =~= r0.drop_first());
                assert(decreases_to!(r0 => r0.subrange(1, r0.len() as int)));
                assert(rest@ == r0.subrange(1, r0.len() as int));
                assert(decreases_to!(orig => node));
                assert(suffix == seq![node.model()] + lq_model_seq(r0.drop_first()));
                assert(suffix[0] == node.model());
                assert(suffix.drop_first() =~= lq_model_seq(r0.drop_first()));
            }
            let ghost ws = walk_nodes(suffix, base);
            let ghost wrest = walk_nodes(lq_model_seq(rest@), (base + 1) as nat);
            match node {
                LayeredQuery::Query(q) => {
                    let lc = q.to_condition();
                    let (st, c, en) = lc;
                    let mut piece = skel_text_exec(conds.len(), st, en);
                    proof {
                        assert(ws.skel == skel_text_piece(base, st, en) + wrest.skel);
                        assert(ws.conds == seq![c@] + wrest.conds);
                    }
                    let ghost skel0 = skel@;
                    let ghost piecem = piece@;
                    skel.append(&mut piece);
                    let ghost conds0 = conds@;
                    let ghost cm = c@;
                    conds.push(c);
                    proof {
                        crate::condition::lemma_model_seq_push(conds0, conds@[conds@.len() - 1]);
                        assert((skel0 + piecem) + wrest.skel =~= skel0 + (piecem + wrest.skel));
                        assert((model_seq(conds0) + seq![cm]) + wrest.conds =~= model_seq(conds0)
                            + (seq![cm] + wrest.conds));
                    }
                },
                LayeredQuery::Bracket(sub) => {
                    proof {
                        assert(decreases_to!(node => node->Bracket_0));
                    }
                    let c = sub.to_condition();
                    let mut piece = skel_group_exec(conds.len());
                    proof {
                        assert(ws.skel == skel_group_piece(base) + wrest.skel);
                        assert(ws.conds == seq![c@] + wrest.conds);
                    }
                    let ghost skel0 = skel@;
                    let ghost piecem = piece@;
                    skel.append(&mut piece);
                    let ghost conds0 = conds@;
                    let ghost cm = c@;
                    conds.push(c);
                    proof {
                        crate::condition::lemma_model_seq_push(conds0, conds@[conds@.len() - 1]);
                        assert((skel0 + piecem) + wrest.skel =~= skel0 + (piecem + wrest.skel));
                        assert((model_seq(conds0) + seq![cm]) + wrest.conds =~= model_seq(conds0)
                            + (seq![cm] + wrest.conds));
                    }
                },
                LayeredQuery::NegativeBracket(sub) => {
                    proof {
                        assert(decreases_to!(node => node->NegativeBracket_0));
                    }
                    let c = sub.to_condition();
                    let nc = Condition::Not(Box::new(c));
                    let mut piece = skel_group_exec(conds.len());
                    proof {
                        assert(nc@ == CondModel::Not(Box::new(tree_cond_spec(node.model()->NegGroup_0))));
                        assert(ws.skel == skel_group_piece(base) + wrest.skel);
                        assert(ws.conds == seq![nc@] + wrest.conds);
                    }
                    let ghost skel0 = skel@;
                    let ghost piecem = piece@;
                    skel.append(&mut piece);
                    let ghost conds0 = conds@;
                    let ghost cm = nc@;
                    conds.push(nc);
                    proof {
                        crate::condition::lemma_model_seq_push(conds0, conds@[conds@.len() - 1]);
                        assert((skel0 + piecem) + wrest.skel =~= skel0 + (piecem + wrest.skel));
                        assert((model_seq(conds0) + seq![cm]) + wrest.conds =~= model_seq(conds0)
                            + (seq![cm] + wrest.conds));
                    }
                },
            }
        }
        proof {
            assert(lq_model_seq(rest@) =~= Seq::<LQModel>::empty());
            assert(walk_nodes(Seq::<LQModel>::empty(), conds@.len() as nat).skel
                =~= Seq::<char>::empty());
            assert(walk_nodes(Seq::<LQModel>::empty(), conds@.len() as nat).conds
                =~= Seq::<CondModel>::empty());
            assert(walk_nodes(orig@, 0).skel =~= skel@);
            assert(walk_nodes(orig@, 0).conds =~= model_seq(conds@));
        }
        let sq = Query::new(crate::text::chars_string(&skel));
        let lc = sq.to_condition();
        let sc = lc.1;
        let sub = substitute_exec(sc, &conds);
        sub.simplify()
    }

    /// Resolve a skeleton index keyword against the accumulated conditions;
    /// anything unresolvable gives the empty condition.
    pub fn get_condition(index: String, conditions: &Vec<Condition>) -> (r: Condition)
        ensures
            r@ == lookup_spec(index@, model_seq(conditions@)),
    {
        lookup_exec(&index, conditions)
    }
}

} // verus!
