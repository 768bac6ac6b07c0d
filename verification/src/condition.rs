//! The output AST of the parser and its canonicalizing simplifier.

use vstd::prelude::*;

use crate::text::blank_spec;

verus! {

/// Boolean connective of an [`Condition::Operator`] node.
#[derive(Debug, Clone, Copy, PartialEq, Eq, Structural)]
pub enum Operator {
    And,
    Or,
}

/// Mathematical model of a [`Condition`]: the same tree with every piece of
/// text abstracted to its sequence of characters.
#[verifier::ext_equal]
pub enum CondModel {
    Empty,
    Keyword(Seq<char>),
    PhraseKeyword(Seq<char>),
    Not(Box<CondModel>),
    Operator(Operator, Seq<CondModel>),
}

/// Canonical boolean condition tree produced by the parser.
#[derive(Debug, PartialEq, Eq)]
pub enum Condition {
    Empty,
    Keyword(String),
    PhraseKeyword(String),
    Not(Box<Condition>),
    Operator(Operator, Vec<Condition>),
}

impl Condition {
    /// The model of this tree.
    pub open spec fn model(self) -> CondModel
        decreases self,
    {
        match self {
            Condition::Empty => CondModel::Empty,
            Condition::Keyword(t) => CondModel::Keyword(t@),
            Condition::PhraseKeyword(t) => CondModel::PhraseKeyword(t@),
            Condition::Not(b) => CondModel::Not(Box::new((*b).model())),
            Condition::Operator(op, cs) => CondModel::Operator(op, model_seq(cs@)),
        }
    }
}

/// The models of a list of trees, in order.
pub open spec fn model_seq(cs: Seq<Condition>) -> Seq<CondModel>
    decreases cs,
{
    if cs.len() == 0 {
        Seq::empty()
    } else {
        seq![cs[0].model()] + model_seq(cs.drop_first())
    }
}

impl View for Condition {
    type V = CondModel;

    open spec fn view(&self) -> CondModel {
        (*self).model()
    }
}

/// Does `x` carry the same operator as `op`?
pub open spec fn same_op(op: Operator, x: CondModel) -> bool {
    match x {
        CondModel::Operator(op2, _) => op2 == op,
        _ => false,
    }
}

/// Simplify each element of `cs` and drop the ones that became `Empty`.
pub open spec fn simplify_kept(cs: Seq<CondModel>) -> Seq<CondModel>
    decreases cs,
{
    if cs.len() == 0 {
        Seq::empty()
    } else {
        let s = simplify_spec(cs[0]);
        (if s is Empty {
            Seq::empty()
        } else {
            seq![s]
        }) + simplify_kept(cs.drop_first())
    }
}

/// Splice the children of every element that carries the same operator as
/// `op` directly into the list.
pub open spec fn flatten_same(op: Operator, cs: Seq<CondModel>) -> Seq<CondModel>
    decreases cs,
{
    if cs.len() == 0 {
        Seq::empty()
    } else {
        (match cs[0] {
            CondModel::Operator(op2, inner) => if op2 == op {
                inner
            } else {
                seq![cs[0]]
            },
            _ => seq![cs[0]],
        }) + flatten_same(op, cs.drop_first())
    }
}

/// The canonical form of `c`: blanks dropped, double negation cancelled,
/// operator nodes with fewer than two children unwrapped, and children that
/// repeat their parent's operator spliced in.
pub open spec fn simplify_spec(c: CondModel) -> CondModel
    decreases c,
{
    match c {
        CondModel::Empty => CondModel::Empty,
        CondModel::Keyword(t) => if blank_spec(t) {
            CondModel::Empty
        } else {
            CondModel::Keyword(t)
        },
        CondModel::PhraseKeyword(t) => if blank_spec(t) {
            CondModel::Empty
        } else {
            CondModel::PhraseKeyword(t)
        },
        CondModel::Not(b) => {
            let s = simplify_spec(*b);
            match s {
                CondModel::Empty => CondModel::Empty,
                CondModel::Not(y) => *y,
                _ => CondModel::Not(Box::new(s)),
            }
        },
        CondModel::Operator(op, cs) => {
            let kept = simplify_kept(cs);
            if kept.len() == 0 {
                CondModel::Empty
            } else if kept.len() == 1 {
                kept[0]
            } else {
                CondModel::Operator(op, flatten_same(op, kept))
            }
        },
    }
}

/// The invariant that holds of every simplified tree: no blank keyword, no
/// `Not` around `Empty` or another `Not`, and every operator node with at
/// least two children, none of which is `Empty` or repeats the operator.
pub open spec fn is_canonical(c: CondModel) -> bool
    decreases c,
{
    match c {
        CondModel::Empty => true,
        CondModel::Keyword(t) => !blank_spec(t),
        CondModel::PhraseKeyword(t) => !blank_spec(t),
        CondModel::Not(b) => is_canonical(*b) && !(*b is Empty) && !(*b is Not),
        CondModel::Operator(op, cs) => cs.len() >= 2 && forall|i: int|
            0 <= i < cs.len() ==> is_canonical(#[trigger] cs[i]) && !(cs[i] is Empty) && !same_op(
                op,
                cs[i],
            ),
    }
}

/// `model_seq` keeps length and maps elements one for one.
pub proof fn lemma_model_seq(cs: Seq<Condition>)
    ensures
        model_seq(cs).len() == cs.len(),
        forall|i: int| 0 <= i < cs.len() ==> model_seq(cs)[i] == #[trigger] cs[i].model(),
    decreases cs,
{
    if cs.len() > 0 {
        lemma_model_seq(cs.drop_first());
        assert forall|i: int| 0 <= i < cs.len() implies model_seq(cs)[i] == #[trigger] cs[i].model() by {
            if i > 0 {
                assert(model_seq(cs)[i] == model_seq(cs.drop_first())[i - 1]);
                assert(cs.drop_first()[i - 1] == cs[i]);
            }
        }
    }
}

/// `model_seq` distributes over concatenation.
pub proof fn lemma_model_seq_concat(a: Seq<Condition>, b: Seq<Condition>)
    ensures
        model_seq(a + b) == model_seq(a) + model_seq(b),
    decreases a,
{
    if a.len() == 0 {
        assert(a + b =~= b);
        assert(model_seq(a) + model_seq(b) =~= model_seq(b));
    } else {
        lemma_model_seq_concat(a.drop_first(), b);
        assert((a + b).drop_first() =~= a.drop_first() + b);
        assert(seq![(a + b)[0].model()] + (model_seq(a.drop_first()) + model_seq(b)) =~= (seq![
            a[0].model(),
        ] + model_seq(a.drop_first())) + model_seq(b));
    }
}

impl Clone for Condition {
    /// A deep copy with the same model.
    fn clone(&self) -> (res: Self)
        ensures
            res@ == self@,
        decreases self,
    {
        match self {
            Condition::Empty => Condition::Empty,
            Condition::Keyword(t) => Condition::Keyword(t.clone()),
            Condition::PhraseKeyword(t) => Condition::PhraseKeyword(t.clone()),
            Condition::Not(b) => Condition::Not(Box::new((**b).clone())),
            Condition::Operator(op, cs) => {
                proof {
                    assert(decreases_to!(*self => self->Operator_1));
                }
                let mut out: Vec<Condition> = Vec::new();
                let mut i: usize = 0;
                while i < cs.len()
                    invariant
                        0 <= i <= cs@.len(),
                        out@.len() == i,
                        decreases_to!(*self => *cs),
                        forall|j: int| 0 <= j < i ==> (#[trigger] out@[j])@ == cs@[j]@,
                    decreases cs@.len() - i,
                {
                    proof {
                        assert(decreases_to!(*cs => cs@[i as int]));
                    }
                    out.push(cs[i].clone());
                    i = i + 1;
                }
                proof {
                    lemma_model_seq(out@);
                    lemma_model_seq(cs@);
                    assert forall|j: int| 0 <= j < cs@.len() implies model_seq(out@)[j]
                        == model_seq(cs@)[j] by {
                        assert(out@[j].model() == cs@[j].model());
                    }
                    assert(model_seq(out@) =~= model_seq(cs@));
                }
                Condition::Operator(*op, out)
            },
        }
    }
}

/// `model_seq` distributes over `push`.
pub proof fn lemma_model_seq_push(s: Seq<Condition>, x: Condition)
    ensures
        model_seq(s.push(x)) == model_seq(s) + seq![x.model()],
{
    assert(s.push(x) =~= s + seq![x]);
    lemma_model_seq_concat(s, seq![x]);
    assert(seq![x].drop_first() =~= Seq::<Condition>::empty());
    assert(model_seq(Seq::<Condition>::empty()) =~= Seq::<CondModel>::empty());
    assert(model_seq(seq![x]) =~= seq![x.model()]);
}

impl Condition {
    /// Canonicalize this tree: drop blanks, cancel double negation, unwrap
    /// singleton operator nodes and flatten children that repeat their
    /// parent's operator.
    #[verifier::loop_isolation(false)]
    pub fn simplify(self) -> (r: Condition)
        ensures
            r@ == simplify_spec(self@),
            is_canonical(r@),
        decreases self,
    {
        proof {
            lemma_simplify_canonical(self@);
        }
        let ghost orig = self;
        match self {
            Condition::Empty => Condition::Empty,
            Condition::Keyword(t) => {
                if crate::text::str_blank(t.as_str()) {
                    Condition::Empty
                } else {
                    Condition::Keyword(t)
                }
            },
            Condition::PhraseKeyword(t) => {
                if crate::text::str_blank(t.as_str()) {
                    Condition::Empty
                } else {
                    Condition::PhraseKeyword(t)
                }
            },
            Condition::Not(b) => {
                proof {
                    assert(decreases_to!(orig => orig->Not_0));
                }
                let s = (*b).simplify();
                match s {
                    Condition::Empty => Condition::Empty,
                    Condition::Not(y) => *y,
                    s2 => Condition::Not(Box::new(s2)),
                }
            },
            Condition::Operator(op, cs) => {
                proof {
                    assert(decreases_to!(orig => orig->Operator_1));
                }
                let ghost csm = model_seq(cs@);
                let mut rest = cs;
                let mut kept: Vec<Condition> = Vec::new();
                proof {
                    assert(model_seq(kept@) + simplify_kept(model_seq(rest@)) =~= simplify_kept(
                        csm,
                    ));
                }
                while rest.len() > 0
                    invariant
                        decreases_to!(orig => rest@),
                        simplify_kept(csm) == model_seq(kept@) + simplify_kept(model_seq(rest@)),
                    decreases rest@.len(),
                {
                    let ghost r0 = rest@;
                    proof {
                        assert(decreases_to!(rest@ => rest@[0]));
                    }
                    let c = rest.remove(0);
                    proof {
                        assert(rest@ =~= r0.drop_first());
                        assert(decreases_to!(r0 => r0.subrange(1, r0.len() as int)));
                        assert(rest@ == r0.subrange(1, r0.len() as int));
                        assert(decreases_to!(orig => c));
                        assert(model_seq(r0) == seq![c.model()] + model_seq(r0.drop_first()));
                        assert(model_seq(r0)[0] == c.model());
                        assert(model_seq(r0).drop_first() =~= model_seq(r0.drop_first()));
                    }
                    let ghost keptm0 = model_seq(kept@);
                    let sc = c.simplify();
                    if matches!(sc, Condition::Empty) {
                        proof {
                            assert(sc@ is Empty);
                            assert(keptm0 + (Seq::<CondModel>::empty() + simplify_kept(model_seq(
                                rest@,
                            ))) =~= keptm0 + simplify_kept(model_seq(rest@)));
                        }
                    } else {
                        proof {
                            assert(!(sc@ is Empty));
                        }
                        let ghost scm = sc@;
                        let ghost kept_before = kept@;
                        kept.push(sc);
                        proof {
                            lemma_model_seq_push(kept_before, sc);
                            assert(model_seq(kept@) == keptm0 + seq![scm]);
                            assert((keptm0 + seq![scm]) + simplify_kept(model_seq(rest@)) =~= keptm0
                                + (seq![scm] + simplify_kept(model_seq(rest@))));
                        }
                    }
                }
                proof {
                    assert(model_seq(rest@) =~= Seq::<CondModel>::empty());
                    assert(simplify_kept(csm) =~= model_seq(kept@));
                    lemma_model_seq(kept@);
                }
                if kept.len() == 0 {
                    Condition::Empty
                } else if kept.len() == 1 {
                    match kept.pop() {
                        Option::Some(c) => c,
                        Option::None => Condition::Empty,
                    }
                } else {
                    let ghost keptall = simplify_kept(csm);
                    let mut out: Vec<Condition> = Vec::new();
                    proof {
                        assert(model_seq(out@) + flatten_same(op, model_seq(kept@)) =~= flatten_same(
                            op,
                            keptall,
                        ));
                    }
                    while kept.len() > 0
                        invariant
                            flatten_same(op, keptall) == model_seq(out@) + flatten_same(
                                op,
                                model_seq(kept@),
                            ),
                        decreases kept@.len(),
                    {
                        let ghost k0 = kept@;
                        let c = kept.remove(0);
                        proof {
                            assert(kept@ =~= k0.drop_first());
                            assert(model_seq(k0) == seq![c.model()] + model_seq(k0.drop_first()));
                            assert(model_seq(k0)[0] == c.model());
                            assert(model_seq(k0).drop_first() =~= model_seq(k0.drop_first()));
                        }
                        let ghost outm0 = model_seq(out@);
                        match c {
                            Condition::Operator(op2, mut inner) => {
                                if op2 == op {
                                    let ghost innerm = model_seq(inner@);
                                    let ghost out_before = out@;
                                    let ghost inner_before = inner@;
                                    out.append(&mut inner);
                                    proof {
                                        lemma_model_seq_concat(out_before, inner_before);
                                        assert(model_seq(out@) == outm0 + innerm);
                                        assert((outm0 + innerm) + flatten_same(op, model_seq(kept@))
                                            =~= outm0 + (innerm + flatten_same(op, model_seq(kept@))));
                                    }
                                } else {
                                    let ghost out_before = out@;
                                    let ghost cm = CondModel::Operator(op2, model_seq(inner@));
                                    out.push(Condition::Operator(op2, inner));
                                    proof {
                                        lemma_model_seq_push(out_before, out@[out@.len() - 1]);
                                        assert((outm0 + seq![cm]) + flatten_same(op, model_seq(kept@))
                                            =~= outm0 + (seq![cm] + flatten_same(op, model_seq(kept@))));
                                    }
                                }
                            },
                            other => {
                                let ghost cm = other@;
                                let ghost out_before = out@;
                                out.push(other);
                                proof {
                                    lemma_model_seq_push(out_before, out@[out@.len() - 1]);
                                    assert((outm0 + seq![cm]) + flatten_same(op, model_seq(kept@))
                                        =~= outm0 + (seq![cm] + flatten_same(op, model_seq(kept@))));
                                }
                            },
                        }
                    }
                    proof {
                        assert(model_seq(kept@) =~= Seq::<CondModel>::empty());
                        assert(flatten_same(op, keptall) =~= model_seq(out@));
                    }
                    Condition::Operator(op, out)
                }
            },
        }
    }
}

/// Every element that `simplify_kept` keeps is canonical and not `Empty`.
proof fn lemma_simplify_kept_canonical(cs: Seq<CondModel>)
    ensures
        forall|j: int| 0 <= j < simplify_kept(cs).len() ==> is_canonical(
            #[trigger] simplify_kept(cs)[j],
        ) && !(simplify_kept(cs)[j] is Empty),
    decreases cs,
{
    if cs.len() > 0 {
        lemma_simplify_canonical(cs[0]);
        lemma_simplify_kept_canonical(cs.drop_first());
    }
}

/// Splicing same-operator children preserves canonicality of the elements,
/// leaves no element with the parent's operator, and never shrinks the list.
proof fn lemma_flatten_canonical(op: Operator, cs: Seq<CondModel>)
    requires
        forall|j: int| 0 <= j < cs.len() ==> is_canonical(#[trigger] cs[j]) && !(cs[j] is Empty),
    ensures
        flatten_same(op, cs).len() >= cs.len(),
        forall|j: int| 0 <= j < flatten_same(op, cs).len() ==> is_canonical(
            #[trigger] flatten_same(op, cs)[j],
        ) && !(flatten_same(op, cs)[j] is Empty) && !same_op(op, flatten_same(op, cs)[j]),
    decreases cs,
{
    if cs.len() > 0 {
        lemma_flatten_canonical(op, cs.drop_first());
    }
}

/// The result of `simplify_spec` satisfies the canonical-form invariant: no
/// blank keyword or phrase, no `Not` around `Empty` or another `Not`, and no
/// operator node with fewer than two children or with a child that repeats
/// its operator.
pub proof fn lemma_simplify_canonical(c: CondModel)
    ensures
        is_canonical(simplify_spec(c)),
    decreases c,
{
    match c {
        CondModel::Not(b) => {
            lemma_simplify_canonical(*b);
        },
        CondModel::Operator(op, cs) => {
            lemma_simplify_kept_canonical(cs);
            let kept = simplify_kept(cs);
            if kept.len() >= 2 {
                lemma_flatten_canonical(op, kept);
            }
        },
        _ => {},
    }
}

/// `simplify_kept` leaves a list of canonical, non-`Empty` elements alone.
proof fn lemma_kept_identity(cs: Seq<CondModel>)
    requires
        forall|j: int| 0 <= j < cs.len() ==> is_canonical(#[trigger] cs[j]) && !(cs[j] is Empty),
    ensures
        simplify_kept(cs) == cs,
    decreases cs,
{
    if cs.len() == 0 {
        assert(simplify_kept(cs) =~= cs);
    } else {
        lemma_simplify_identity(cs[0]);
        lemma_kept_identity(cs.drop_first());
        assert(simplify_kept(cs) =~= cs);
    }
}

/// Flattening does nothing when no element carries the parent's operator.
proof fn lemma_flatten_identity(op: Operator, cs: Seq<CondModel>)
    requires
        forall|j: int| 0 <= j < cs.len() ==> !same_op(op, #[trigger] cs[j]),
    ensures
        flatten_same(op, cs) == cs,
    decreases cs,
{
    if cs.len() == 0 {
        assert(flatten_same(op, cs) =~= cs);
    } else {
        lemma_flatten_identity(op, cs.drop_first());
        assert(flatten_same(op, cs) =~= cs);
    }
}

/// A canonical tree is a fixed point of `simplify_spec`.
pub proof fn lemma_simplify_identity(c: CondModel)
    requires
        is_canonical(c),
    ensures
        simplify_spec(c) == c,
    decreases c,
{
    match c {
        CondModel::Not(b) => {
            lemma_simplify_identity(*b);
        },
        CondModel::Operator(op, cs) => {
            lemma_kept_identity(cs);
            lemma_flatten_identity(op, cs);
        },
        _ => {},
    }
}

/// Simplification is idempotent: simplifying twice gives the same tree as
/// simplifying once.
pub proof fn lemma_simplify_idempotent(c: CondModel)
    ensures
        simplify_spec(simplify_spec(c)) == simplify_spec(c),
{
    lemma_simplify_canonical(c);
    lemma_simplify_identity(simplify_spec(c));
}

} // verus!
