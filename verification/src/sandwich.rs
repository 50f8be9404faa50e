//! The ingredient taxonomy and the sandwich.
//!
//! Ingredients form a fixed tree: leaves are orderable components, inner
//! nodes are categories, and one distinguished category named `base` holds
//! the bread pairs. Each node carries a unique name and a one-syllable
//! morpheme; the surface word for an ingredient concatenates the morphemes
//! on the path from the root. Ingredient equality is by name.

use vstd::prelude::*;

use crate::grammar::{
    text_matches, AnnotatedWord, DictionaryEntry, EntryModel, Syllable, Word, WordFunction, WordRole,
};
use crate::random::Entropy;

verus! {

/// A node of the ingredient taxonomy.
#[derive(Debug)]
pub struct Ingredient {
    /// The unique key of the node.
    pub name: String,
    /// The syllable this node contributes to its ingredients' words.
    pub morpheme: Syllable,
    /// The sub-ingredients of a category; `None` marks a leaf.
    pub children: Option<Vec<Ingredient>>,
}

impl Clone for Ingredient {
    fn clone(&self) -> (r: Self)
        ensures
            r.name@ == self.name@,
            r.morpheme == self.morpheme,
            r.children is Some <==> self.children is Some,
    {
        self.duplicate()
    }
}

impl PartialEq for Ingredient {
    /// Ingredient equality is by name.
    fn eq(&self, other: &Self) -> (r: bool) {
        self.name == other.name
    }
}

impl vstd::std_specs::cmp::PartialEqSpecImpl for Ingredient {
    open spec fn obeys_eq_spec() -> bool {
        true
    }

    open spec fn eq_spec(&self, other: &Self) -> bool {
        self.name@ == other.name@
    }
}

/// The morpheme path to the first node, in depth-first order, that bears the
/// given name: the node's own morpheme, then the path within the subtree.
pub open spec fn spec_word_for(i: Ingredient, name: Seq<char>) -> Option<Seq<Syllable>>
    decreases i, 1int, 0int,
{
    if i.name@ == name {
        Some(seq![i.morpheme])
    } else {
        match spec_word_for_from(i, name, 0) {
            Some(w) => Some(seq![i.morpheme] + w),
            None => None,
        }
    }
}

/// The morpheme path to `name` within the children of `i`, starting the
/// search at child `k`.
pub open spec fn spec_word_for_from(i: Ingredient, name: Seq<char>, k: int) -> Option<
    Seq<Syllable>,
>
    decreases i, 0int, spec_children(i).len() - k,
{
    if k < 0 || k >= spec_children(i).len() {
        None
    } else {
        match spec_word_for(spec_children(i)[k], name) {
            Some(w) => Some(w),
            None => spec_word_for_from(i, name, k + 1),
        }
    }
}

/// The children of a node, empty for a leaf.
pub open spec fn spec_children(i: Ingredient) -> Seq<Ingredient> {
    match i.children {
        Some(cs) => cs@,
        None => Seq::empty(),
    }
}

/// The last child in the list whose morpheme is `sy`, or the fallback when
/// none matches.
pub open spec fn spec_child_with(cs: Seq<Ingredient>, sy: Syllable, fallback: Ingredient) -> Ingredient
    decreases cs.len(),
{
    if cs.len() == 0 {
        fallback
    } else {
        spec_child_with(
            cs.drop_first(),
            sy,
            if cs[0].morpheme == sy {
                cs[0]
            } else {
                fallback
            },
        )
    }
}

/// One step of the morpheme walk: move to the child with the given
/// morpheme, or stay in place when no child carries it.
pub open spec fn spec_step(i: Ingredient, sy: Syllable) -> Ingredient {
    spec_child_with(spec_children(i), sy, i)
}

/// The morpheme walk: follow each syllable in turn, staying in place on the
/// syllables that match no child.
pub open spec fn spec_descend(i: Ingredient, w: Seq<Syllable>) -> Ingredient
    decreases w.len(),
{
    if w.len() == 0 {
        i
    } else {
        spec_descend(spec_step(i, w[0]), w.drop_first())
    }
}

/// The node a word denotes: its first syllable is the root's own morpheme,
/// the rest are walked.
pub open spec fn spec_from_word(i: Ingredient, w: Seq<Syllable>) -> Ingredient {
    if w.len() == 0 {
        i
    } else {
        spec_descend(i, w.drop_first())
    }
}

/// The names of a list of ingredients.
pub open spec fn spec_names(s: Seq<Ingredient>) -> Seq<Seq<char>> {
    s.map_values(|i: Ingredient| i.name@)
}

/// The name of the reserved bread category.
pub open spec fn spec_base_name() -> Seq<char> {
    seq!['b', 'a', 's', 'e']
}

/// The view of a list of named words.
pub open spec fn spec_pairs_view(s: Seq<(String, Word)>) -> Seq<(Seq<char>, Seq<Syllable>)> {
    s.map_values(|p: (String, Word)| (p.0@, p.1@))
}

/// Each leaf's word, extended with one more leading morpheme.
pub open spec fn spec_prefix_leaves(m: Syllable, s: Seq<(Seq<char>, Seq<Syllable>)>) -> Seq<
    (Seq<char>, Seq<Syllable>),
> {
    s.map_values(|p: (Seq<char>, Seq<Syllable>)| (p.0, seq![m] + p.1))
}

/// Every leaf under this node, as a pair of its name and its surface word:
/// the morphemes from this node down to the leaf.
pub open spec fn spec_leaves(i: Ingredient) -> Seq<(Seq<char>, Seq<Syllable>)>
    decreases i, 1int, 0int,
{
    if i.children is None {
        seq![(i.name@, seq![i.morpheme])]
    } else {
        spec_prefix_leaves(i.morpheme, spec_leaves_from(i, 0))
    }
}

/// The leaves under the children of `i`, starting at child `k`, as seen from
/// the children themselves.
pub open spec fn spec_leaves_from(i: Ingredient, k: int) -> Seq<(Seq<char>, Seq<Syllable>)>
    decreases i, 0int, spec_children(i).len() - k,
{
    if k < 0 || k >= spec_children(i).len() {
        Seq::empty()
    } else {
        spec_leaves(spec_children(i)[k]) + spec_leaves_from(i, k + 1)
    }
}

/// The names of the leaves reachable without entering any child category
/// named `base`.
pub open spec fn spec_free_leaf_names(i: Ingredient) -> Seq<Seq<char>>
    decreases i, 1int, 0int,
{
    if i.children is None {
        seq![i.name@]
    } else {
        spec_free_leaf_names_from(i, 0)
    }
}

/// The free leaf names under the children of `i`, starting at child `k`.
pub open spec fn spec_free_leaf_names_from(i: Ingredient, k: int) -> Seq<Seq<char>>
    decreases i, 0int, spec_children(i).len() - k,
{
    if k < 0 || k >= spec_children(i).len() {
        Seq::empty()
    } else if spec_children(i)[k].name@ == spec_base_name() {
        spec_free_leaf_names_from(i, k + 1)
    } else {
        spec_free_leaf_names(spec_children(i)[k]) + spec_free_leaf_names_from(i, k + 1)
    }
}

/// The index of the first child named `base` at or after `k`, or the number
/// of children when there is none.
pub open spec fn spec_first_base(cs: Seq<Ingredient>, k: int) -> int
    decreases cs.len() - k,
    when 0 <= k <= cs.len()
{
    if k >= cs.len() {
        cs.len() as int
    } else if cs[k].name@ == spec_base_name() {
        k
    } else {
        spec_first_base(cs, k + 1)
    }
}

/// Whether some node of the tree bears the given name.
pub open spec fn spec_in_tree(i: Ingredient, name: Seq<char>) -> bool
    decreases i,
{
    i.name@ == name || exists|k: int|
        0 <= k < spec_children(i).len() && spec_in_tree(#[trigger] spec_children(i)[k], name)
}

/// Whether the node's children carry pairwise distinct morphemes, here and
/// in every subtree. This keeps morpheme paths unambiguous.
pub open spec fn spec_tree_wf(i: Ingredient) -> bool
    decreases i,
{
    (forall|j: int, k: int|
        0 <= j < k < spec_children(i).len() ==> (#[trigger] spec_children(i)[j]).morpheme != (
        #[trigger] spec_children(i)[k]).morpheme) && (forall|k: int|
        0 <= k < spec_children(i).len() ==> spec_tree_wf(#[trigger] spec_children(i)[k]))
}

impl Ingredient {
    /// A copy of this node and its whole subtree.
    pub fn duplicate(&self) -> (r: Ingredient)
        ensures
            r.name@ == self.name@,
            r.morpheme == self.morpheme,
            r.children is Some <==> self.children is Some,
        decreases *self,
    {
        match &self.children {
            None => Ingredient { name: self.name.clone(), morpheme: self.morpheme, children: None },
            Some(cs) => {
                let mut out: Vec<Ingredient> = Vec::new();
                let mut k: usize = 0;
                while k < cs.len()
                    invariant
                        k <= cs@.len(),
                        cs@ == spec_children(*self),
                        self.children is Some,
                    decreases cs@.len() - k,
                {
                    proof {
                        assert(decreases_to!(*self => cs@[k as int]));
                    }
                    out.push(cs[k].duplicate());
                    k = k + 1;
                }
                Ingredient {
                    name: self.name.clone(),
                    morpheme: self.morpheme,
                    children: Some(out),
                }
            },
        }
    }

    /// The unique key of this node.
    pub fn name(&self) -> (r: &str)
        ensures
            r@ == self.name@,
    {
        self.name.as_str()
    }

    /// Whether this node is the given ingredient or contains it as a
    /// descendant, by name.
    pub fn includes(&self, other: &Ingredient) -> (r: bool)
        ensures
            r == spec_in_tree(*self, other.name@),
        decreases *self,
    {
        if self.name == other.name {
            return true;
        }
        match &self.children {
            None => {
                proof {
                    assert(spec_children(*self).len() == 0);
                }
                false
            },
            Some(cs) => {
                let mut k: usize = 0;
                while k < cs.len()
                    invariant
                        k <= cs@.len(),
                        cs@ == spec_children(*self),
                        self.name@ != other.name@,
                        forall|j: int| 0 <= j < k ==> !spec_in_tree(spec_children(*self)[j], other.name@),
                    decreases cs@.len() - k,
                {
                    proof {
                        assert(decreases_to!(*self => self.children));
                        assert(decreases_to!(*self => cs@[k as int]));
                    }
                    if cs[k].includes(other) {
                        return true;
                    }
                    k = k + 1;
                }
                false
            },
        }
    }

    /// The first node, in depth-first order, whose name matches the given
    /// definition; `None` if the name is absent from the tree.
    pub fn from_def(&self, definition: &str) -> (r: Option<&Ingredient>)
        ensures
            match r {
                Some(n) => n.name@ == definition@ && spec_in_tree(*self, definition@),
                None => !spec_in_tree(*self, definition@),
            },
        decreases *self,
    {
        if text_matches(&self.name, definition) {
            return Some(self);
        }
        match &self.children {
            None => {
                proof {
                    assert(spec_children(*self).len() == 0);
                }
                None
            },
            Some(cs) => {
                let mut k: usize = 0;
                while k < cs.len()
                    invariant
                        k <= cs@.len(),
                        cs@ == spec_children(*self),
                        self.name@ != definition@,
                        forall|j: int| 0 <= j < k ==> !spec_in_tree(spec_children(*self)[j], definition@),
                    decreases cs@.len() - k,
                {
                    proof {
                        assert(decreases_to!(*self => cs@[k as int]));
                    }
                    let found: Option<&Ingredient> = cs[k].from_def(definition);
                    if let Some(n) = found {
                        return Some(n);
                    }
                    k = k + 1;
                }
                None
            },
        }
    }

    /// The node this word denotes: the first syllable stands for this root,
    /// each later syllable moves to the child carrying it as morpheme, and a
    /// syllable that matches no child leaves the walk in place, so a
    /// malformed or truncated word degrades to the nearest matched ancestor.
    pub fn from_word(&self, w: &Word) -> (r: &Ingredient)
        ensures
            *r == spec_from_word(*self, w@),
    {
        let mut current: &Ingredient = self;
        if w.syllables.len() == 0 {
            return current;
        }
        let mut idx: usize = 1;
        proof {
            assert(w@.skip(1) =~~= w@.drop_first());
        }
        while idx < w.syllables.len()
            invariant
                1 <= idx <= w@.len(),
                spec_descend(*self, w@.drop_first()) == spec_descend(*current, w@.skip(idx as int)),
            decreases w@.len() - idx,
        {
            let sy: Syllable = w.syllables[idx];
            let ghost base: Ingredient = *current;
            let ghost remaining: Seq<Syllable> = w@.skip(idx as int);
            proof {
                assert(remaining[0] == sy);
                assert(remaining.drop_first() =~~= w@.skip(idx + 1));
            }
            let mut stepped: &Ingredient = current;
            match &current.children {
                Some(cs) => {
                    let mut j: usize = 0;
                    proof {
                        assert(cs@.skip(0) =~~= cs@);
                    }
                    while j < cs.len()
                        invariant
                            j <= cs@.len(),
                            cs@ == spec_children(base),
                            spec_child_with(cs@, sy, base) == spec_child_with(
                                cs@.skip(j as int),
                                sy,
                                *stepped,
                            ),
                        decreases cs@.len() - j,
                    {
                        proof {
                            assert(cs@.skip(j as int)[0] == cs@[j as int]);
                            assert(cs@.skip(j as int).drop_first() =~~= cs@.skip(j + 1));
                        }
                        if cs[j].morpheme == sy {
                            stepped = &cs[j];
                        }
                        j = j + 1;
                    }
                    proof {
                        assert(cs@.skip(cs@.len() as int) =~~= Seq::<Ingredient>::empty());
                    }
                },
                None => {
                    proof {
                        assert(spec_children(base).len() == 0);
                    }
                },
            }
            proof {
                assert(*stepped == spec_step(base, sy));
            }
            current = stepped;
            idx = idx + 1;
        }
        proof {
            assert(w@.skip(w@.len() as int) =~~= Seq::<Syllable>::empty());
        }
        current
    }

    /// The surface word for the node bearing the given name: the morphemes
    /// on the depth-first path from this root to the first such node.
    /// `None` when the name is absent from the tree.
    pub fn to_word(&self, ingredient: &Ingredient) -> (r: Option<Word>)
        ensures
            match r {
                Some(w) => spec_word_for(*self, ingredient.name@) == Some(w@),
                None => spec_word_for(*self, ingredient.name@) is None,
            },
    {
        match self.path_syllables(&ingredient.name) {
            Some(v) => Some(Word { syllables: v }),
            None => None,
        }
    }

    /// The morphemes on the path to the first node named `name`.
    fn path_syllables(&self, name: &String) -> (r: Option<Vec<Syllable>>)
        ensures
            match r {
                Some(v) => spec_word_for(*self, name@) == Some(v@),
                None => spec_word_for(*self, name@) is None,
            },
        decreases *self,
    {
        if self.name == *name {
            let out: Vec<Syllable> = vec![self.morpheme];
            proof {
                assert(out@ =~~= seq![self.morpheme]);
            }
            return Some(out);
        }
        match &self.children {
            None => {
                proof {
                    assert(spec_children(*self).len() == 0);
                }
                None
            },
            Some(cs) => {
                let mut k: usize = 0;
                while k < cs.len()
                    invariant
                        k <= cs@.len(),
                        cs@ == spec_children(*self),
                        self.name@ != name@,
                        spec_word_for_from(*self, name@, 0) == spec_word_for_from(
                            *self,
                            name@,
                            k as int,
                        ),
                    decreases cs@.len() - k,
                {
                    proof {
                        assert(decreases_to!(*self => cs@[k as int]));
                    }
                    let found: Option<Vec<Syllable>> = cs[k].path_syllables(name);
                    match found {
                        Some(mut v) => {
                            let ghost tail: Seq<Syllable> = v@;
                            v.insert(0, self.morpheme);
                            proof {
                                assert(v@ =~~= seq![self.morpheme] + tail);
                            }
                            return Some(v);
                        },
                        None => {},
                    }
                    k = k + 1;
                }
                None
            },
        }
    }

    /// Every leaf under this node: pairs of the leaf's name and its surface
    /// word, the morphemes on the path from this node down.
    pub fn leaves(&self) -> (r: Vec<(String, Word)>)
        ensures
            spec_pairs_view(r@) == spec_leaves(*self),
        decreases *self,
    {
        match &self.children {
            None => {
                let mut out: Vec<(String, Word)> = Vec::new();
                let syllables: Vec<Syllable> = vec![self.morpheme];
                out.push((self.name.clone(), Word { syllables }));
                proof {
                    assert(spec_pairs_view(out@) =~~= spec_leaves(*self));
                }
                out
            },
            Some(cs) => {
                let ghost m: Syllable = self.morpheme;
                let mut out: Vec<(String, Word)> = Vec::new();
                let mut k: usize = 0;
                proof {
                    assert(spec_pairs_view(out@) + spec_prefix_leaves(
                        m,
                        spec_leaves_from(*self, 0),
                    ) =~~= spec_leaves(*self));
                }
                while k < cs.len()
                    invariant
                        k <= cs@.len(),
                        cs@ == spec_children(*self),
                        self.children is Some,
                        m == self.morpheme,
                        spec_pairs_view(out@) + spec_prefix_leaves(
                            m,
                            spec_leaves_from(*self, k as int),
                        ) == spec_leaves(*self),
                    decreases cs@.len() - k,
                {
                    proof {
                        assert(decreases_to!(*self => cs@[k as int]));
                    }
                    let lv: Vec<(String, Word)> = cs[k].leaves();
                    let ghost lvv: Seq<(Seq<char>, Seq<Syllable>)> = spec_pairs_view(lv@);
                    let mut j: usize = 0;
                    proof {
                        assert(spec_prefix_leaves(m, spec_leaves_from(*self, k as int))
                            =~~= spec_prefix_leaves(m, lvv) + spec_prefix_leaves(
                            m,
                            spec_leaves_from(*self, k + 1),
                        ));
                        assert(spec_prefix_leaves(m, lvv.skip(0)) =~~= spec_prefix_leaves(m, lvv));
                        assert((spec_pairs_view(out@) + spec_prefix_leaves(m, lvv.skip(0)))
                            + spec_prefix_leaves(m, spec_leaves_from(*self, k + 1))
                            =~~= spec_pairs_view(out@) + (spec_prefix_leaves(m, lvv)
                            + spec_prefix_leaves(m, spec_leaves_from(*self, k + 1))));
                    }
                    while j < lv.len()
                        invariant
                            j <= lv@.len(),
                            lvv == spec_pairs_view(lv@),
                            m == self.morpheme,
                            (spec_pairs_view(out@) + spec_prefix_leaves(m, lvv.skip(j as int)))
                                + spec_prefix_leaves(m, spec_leaves_from(*self, k + 1))
                                == spec_leaves(*self),
                        decreases lv@.len() - j,
                    {
                        let p: &(String, Word) = &lv[j];
                        let mut w2: Word = p.1.clone();
                        w2.syllables.insert(0, self.morpheme);
                        let ghost before: Seq<(String, Word)> = out@;
                        out.push((p.0.clone(), w2));
                        proof {
                            assert(lvv.skip(j as int)[0] == lvv[j as int]);
                            assert(lvv.skip(j as int).drop_first() =~~= lvv.skip(j + 1));
                            assert(spec_prefix_leaves(m, lvv.skip(j as int)) =~~= seq![
                                (lvv[j as int].0, seq![m] + lvv[j as int].1),
                            ] + spec_prefix_leaves(m, lvv.skip(j + 1)));
                            assert(spec_pairs_view(out@) =~~= spec_pairs_view(before) + seq![
                                (lvv[j as int].0, seq![m] + lvv[j as int].1),
                            ]);
                            assert((spec_pairs_view(out@) + spec_prefix_leaves(m, lvv.skip(j + 1)))
                                + spec_prefix_leaves(m, spec_leaves_from(*self, k + 1))
                                =~~= (spec_pairs_view(before) + spec_prefix_leaves(
                                m,
                                lvv.skip(j as int),
                            )) + spec_prefix_leaves(m, spec_leaves_from(*self, k + 1)));
                        }
                        j = j + 1;
                    }
                    proof {
                        assert(lvv.skip(lvv.len() as int) =~~= Seq::<
                            (Seq<char>, Seq<Syllable>),
                        >::empty());
                        assert(spec_prefix_leaves(m, lvv.skip(lvv.len() as int)) =~~= Seq::<
                            (Seq<char>, Seq<Syllable>),
                        >::empty());
                        assert((spec_pairs_view(out@) + Seq::<
                            (Seq<char>, Seq<Syllable>),
                        >::empty()) + spec_prefix_leaves(m, spec_leaves_from(*self, k + 1))
                            =~~= spec_pairs_view(out@) + spec_prefix_leaves(
                            m,
                            spec_leaves_from(*self, k + 1),
                        ));
                    }
                    k = k + 1;
                }
                proof {
                    assert(spec_prefix_leaves(m, spec_leaves_from(*self, cs@.len() as int)) =~~= Seq::<
                        (Seq<char>, Seq<Syllable>),
                    >::empty());
                    assert(spec_pairs_view(out@) + Seq::<(Seq<char>, Seq<Syllable>)>::empty()
                        =~~= spec_pairs_view(out@));
                }
                out
            },
        }
    }

    /// Collects a copy of every leaf reachable without entering a child
    /// category named `base`.
    fn free_leaves(&self, out: &mut Vec<Ingredient>)
        ensures
            spec_names(final(out)@) == spec_names(old(out)@) + spec_free_leaf_names(*self),
            forall|x: int|
                old(out)@.len() <= x < final(out)@.len() ==> (#[trigger] final(out)@[x]).children
                    is None,
            forall|x: int| 0 <= x < old(out)@.len() ==> final(out)@[x] == old(out)@[x],
        decreases *self,
    {
        match &self.children {
            None => {
                let copy: Ingredient = self.clone();
                out.push(copy);
                proof {
                    assert(spec_names(out@) =~~= spec_names(old(out)@) + spec_free_leaf_names(
                        *self,
                    ));
                }
            },
            Some(cs) => {
                let mut k: usize = 0;
                proof {
                    assert(spec_names(out@) + Seq::<Seq<char>>::empty() =~~= spec_names(out@));
                }
                while k < cs.len()
                    invariant
                        k <= cs@.len(),
                        cs@ == spec_children(*self),
                        self.children is Some,
                        spec_names(out@) == spec_names(old(out)@) + spec_free_leaf_names_upto(
                            *self,
                            k as int,
                        ),
                        forall|x: int|
                            old(out)@.len() <= x < out@.len() ==> (#[trigger] out@[x]).children
                                is None,
                        forall|x: int| 0 <= x < old(out)@.len() ==> out@[x] == old(out)@[x],
                    decreases cs@.len() - k,
                {
                    proof {
                        assert(decreases_to!(*self => cs@[k as int]));
                        lemma_free_leaf_split(*self, k as int);
                        reveal_strlit("base");
                        assert("base"@ =~~= spec_base_name());
                    }
                    if !text_matches(&cs[k].name, "base") {
                        cs[k].free_leaves(out);
                    }
                    proof {
                        assert(spec_names(out@) =~~= spec_names(old(out)@)
                            + spec_free_leaf_names_upto(*self, k + 1));
                    }
                    k = k + 1;
                }
                proof {
                    lemma_free_leaf_upto_all(*self);
                }
            },
        }
    }

    /// A uniformly random leaf outside the `base` subtree, or `None` when
    /// the taxonomy has no such leaf.
    pub fn random(&self, rng: &mut Entropy) -> (r: Option<Ingredient>)
        ensures
            match r {
                Some(n) => spec_free_leaf_names(*self).contains(n.name@) && n.children is None,
                None => spec_free_leaf_names(*self).len() == 0,
            },
    {
        let mut pool: Vec<Ingredient> = Vec::new();
        self.free_leaves(&mut pool);
        proof {
            assert(spec_names(pool@) =~~= spec_free_leaf_names(*self));
        }
        if pool.len() == 0 {
            return None;
        }
        let bound: u32 = if pool.len() >= u32::MAX as usize {
            u32::MAX
        } else {
            pool.len() as u32
        };
        let idx: usize = rng.below(bound) as usize;
        let ghost pv: Seq<Ingredient> = pool@;
        let picked: Ingredient = pool.remove(idx);
        proof {
            assert(picked == pv[idx as int]);
            assert(spec_free_leaf_names(*self)[idx as int] == picked.name@);
            assert(spec_free_leaf_names(*self).contains(picked.name@));
        }
        Some(picked)
    }

    /// A random bread pair: picks one pair under the first child category
    /// named `base` and returns copies of its bottom and top slice. `None`
    /// when the taxonomy lacks a usable base category.
    pub fn random_base(&self, rng: &mut Entropy) -> (r: Option<(Ingredient, Ingredient)>)
        ensures
            match r {
                Some(pair) => spec_is_base_pair(*self, pair.0.name@, pair.1.name@),
                None => ({
                    let cs = spec_children(*self);
                    let b = spec_first_base(cs, 0);
                    b == cs.len() || spec_children(cs[b]).len() == 0 || exists|k: int|
                        0 <= k < spec_children(cs[b]).len() && spec_children(
                            #[trigger] spec_children(cs[b])[k],
                        ).len() < 2
                }),
            },
    {
        let cs: &Vec<Ingredient> = match &self.children {
            Some(cs) => cs,
            None => {
                return None;
            },
        };
        let mut b: usize = 0;
        while b < cs.len()
            invariant
                b <= cs@.len(),
                cs@ == spec_children(*self),
                spec_first_base(cs@, 0) == spec_first_base(cs@, b as int),
            decreases cs@.len() - b,
        {
            proof {
                reveal_strlit("base");
                assert("base"@ =~~= spec_base_name());
            }
            if text_matches(&cs[b].name, "base") {
                let base: &Ingredient = &cs[b];
                proof {
                    assert(spec_first_base(cs@, 0) == b);
                }
                match &base.children {
                    None => {
                        return None;
                    },
                    Some(bs) => {
                        if bs.len() == 0 {
                            return None;
                        }
                        let bound: u32 = if bs.len() >= u32::MAX as usize {
                            u32::MAX
                        } else {
                            bs.len() as u32
                        };
                        let k: usize = rng.below(bound) as usize;
                        let pair: &Ingredient = &bs[k];
                        match &pair.children {
                            Some(pc) => {
                                if pc.len() >= 2 {
                                    let bottom: Ingredient = pc[0].clone();
                                    let top: Ingredient = pc[1].clone();
                                    return Some((bottom, top));
                                }
                                return None;
                            },
                            None => {
                                return None;
                            },
                        }
                    },
                }
            }
            b = b + 1;
        }
        None
    }

    /// The annotated surface word for an ingredient: its morpheme-path word
    /// with the synthesized noun entry. `None` when the ingredient's name is
    /// absent from the taxonomy.
    pub fn to_annotated_word(&self, ingredient: &Ingredient) -> (r: Option<AnnotatedWord>)
        ensures
            match r {
                Some(aw) => spec_word_for(*self, ingredient.name@) == Some(aw@.word) && aw@.role
                    == Some(WordRole::Noun) && aw@.entry == Some(
                    EntryModel {
                        function: WordFunction::Ingredient,
                        role: WordRole::Noun,
                        definition: ingredient.name@,
                    },
                ),
                None => spec_word_for(*self, ingredient.name@) is None,
            },
    {
        match self.to_word(ingredient) {
            Some(w) => Some(
                AnnotatedWord {
                    word: w,
                    role: Some(WordRole::Noun),
                    entry: Some(
                        DictionaryEntry {
                            function: WordFunction::Ingredient,
                            role: WordRole::Noun,
                            definition: ingredient.name.clone(),
                        },
                    ),
                },
            ),
            None => None,
        }
    }
}

/// Whether `bot` and `top` name the two slices of one pair under the first
/// `base` category of the taxonomy.
pub open spec fn spec_is_base_pair(i: Ingredient, bot: Seq<char>, top: Seq<char>) -> bool {
    let cs = spec_children(i);
    let b = spec_first_base(cs, 0);
    b < cs.len() && exists|k: int|
        0 <= k < spec_children(cs[b]).len() && spec_children(
            #[trigger] spec_children(cs[b])[k],
        ).len() >= 2 && spec_children(spec_children(cs[b])[k])[0].name@ == bot && spec_children(
            spec_children(cs[b])[k],
        )[1].name@ == top
}

/// The shared order under negotiation: an ordered ingredient list, the
/// ingredients confirmed available, and whether the order is closed.
#[derive(Debug)]
pub struct Sandwich {
    /// The ingredient stack, bottom first; duplicates allowed, order
    /// meaningful.
    pub ingredients: Vec<Ingredient>,
    /// The ingredients explicitly confirmed present, kept without
    /// duplicates.
    pub ensured: Vec<Ingredient>,
    /// Set by the finishing operation; randomly generated sandwiches come
    /// finished from the start.
    pub complete: bool,
    /// The display color the order is drawn over.
    pub background_color: String,
}

/// A copy of an ingredient list, element for element by name.
fn clone_ingredients(v: &Vec<Ingredient>) -> (r: Vec<Ingredient>)
    ensures
        spec_names(r@) == spec_names(v@),
{
    let mut out: Vec<Ingredient> = Vec::new();
    let mut i: usize = 0;
    while i < v.len()
        invariant
            i <= v@.len(),
            spec_names(out@) == spec_names(v@).take(i as int),
        decreases v@.len() - i,
    {
        let ghost before: Seq<Ingredient> = out@;
        let c: Ingredient = v[i].clone();
        proof {
            assert(c.name@ == v@[i as int].name@);
        }
        out.push(c);
        proof {
            assert(spec_names(before).len() == before.len());
            assert(spec_names(v@).take(i as int).len() == i);
            assert(before.len() == i);
            assert(out@ == before.push(c));
            assert forall|k: int| 0 <= k < out@.len() implies spec_names(out@)[k] == spec_names(
                v@,
            ).take(i + 1)[k] by {
                assert(spec_names(out@)[k] == out@[k].name@);
                if k < i {
                    assert(before.push(c)[k] == before[k]);
                    assert(spec_names(before)[k] == spec_names(v@).take(i as int)[k]);
                } else {
                    assert(before.push(c)[k] == c);
                }
            }
            assert(spec_names(out@) =~~= spec_names(v@).take(i + 1));
        }
        i = i + 1;
    }
    proof {
        assert(spec_names(v@).take(v@.len() as int) =~~= spec_names(v@));
    }
    out
}

impl Clone for Sandwich {
    fn clone(&self) -> (r: Self)
        ensures
            spec_names(r.ingredients@) == spec_names(self.ingredients@),
            spec_names(r.ensured@) == spec_names(self.ensured@),
            r.complete == self.complete,
            r.background_color@ == self.background_color@,
    {
        Sandwich {
            ingredients: clone_ingredients(&self.ingredients),
            ensured: clone_ingredients(&self.ensured),
            complete: self.complete,
            background_color: self.background_color.clone(),
        }
    }
}

impl Sandwich {
    /// An open order over the given ingredients, nothing confirmed yet.
    pub fn new(ingredients: Vec<Ingredient>) -> (r: Sandwich)
        ensures
            r.ingredients == ingredients,
            r.ensured@.len() == 0,
            !r.complete,
            r.background_color@ == "#00000000"@,
    {
        proof {
            reveal_strlit("#00000000");
        }
        Sandwich {
            ingredients,
            ensured: Vec::new(),
            complete: false,
            background_color: "#00000000".to_owned(),
        }
    }

    /// A random finished sandwich: one base pair around `len` random free
    /// leaves, where a drawn leaf is kept only when its name together with a
    /// coin flip is new — so repeated draws of one ingredient survive about
    /// half the time. `None` when the taxonomy lacks a usable base or, with
    /// `len > 0`, any free leaf.
    pub fn random(all_ingredients: &Ingredient, len: usize, rng: &mut Entropy) -> (r: Option<
        Sandwich,
    >)
        requires
            len <= usize::MAX - 2,
        ensures
            match r {
                Some(s) => s.ingredients@.len() == len + 2 && s.complete && s.ensured@.len() == 0
                    && spec_is_base_pair(
                    *all_ingredients,
                    s.ingredients@[0].name@,
                    s.ingredients@.last().name@,
                ) && forall|x: int|
                    1 <= x <= len ==> spec_free_leaf_names(*all_ingredients).contains(
                        (#[trigger] s.ingredients@[x]).name@,
                    ),
                None => ({
                    let cs = spec_children(*all_ingredients);
                    let b = spec_first_base(cs, 0);
                    b == cs.len() || spec_children(cs[b]).len() == 0 || (exists|k: int|
                        0 <= k < spec_children(cs[b]).len() && spec_children(
                            #[trigger] spec_children(cs[b])[k],
                        ).len() < 2) || (len > 0 && spec_free_leaf_names(
                        *all_ingredients,
                    ).len() == 0) || len > 1
                }),
            },
    {
        let (bottom, top) = match Ingredient::random_base(all_ingredients, rng) {
            Some(pair) => pair,
            None => {
                return None;
            },
        };
        let ghost bot_name: Seq<char> = bottom.name@;
        let mut ingredients: Vec<Ingredient> = Vec::new();
        ingredients.push(bottom);
        let mut seen: Vec<(String, bool)> = Vec::new();
        let mut count: usize = 0;
        let budget: usize = if len > (usize::MAX - 16) / 16 {
            usize::MAX
        } else {
            16 * len + 16
        };
        let mut tries: usize = 0;
        while count < len && tries < budget
            invariant
                count <= len,
                tries <= budget,
                len <= usize::MAX - 2,
                len <= 1 ==> tries == 0 || count == len,
                seen@.len() == count,
                ingredients@.len() == count + 1,
                ingredients@[0].name@ == bot_name,
                spec_is_base_pair(*all_ingredients, bot_name, top.name@),
                forall|x: int|
                    1 <= x <= count ==> spec_free_leaf_names(*all_ingredients).contains(
                        (#[trigger] ingredients@[x]).name@,
                    ),
            decreases budget - tries,
        {
            tries = tries + 1;
            let leaf: Ingredient = match Ingredient::random(all_ingredients, rng) {
                Some(leaf) => leaf,
                None => {
                    return None;
                },
            };
            let flip: bool = rng.chance(500);
            let mut fresh: bool = true;
            let mut j: usize = 0;
            while j < seen.len()
                invariant
                    j <= seen@.len(),
                    seen@.len() == 0 ==> fresh,
                decreases seen@.len() - j,
            {
                let known: bool = text_matches(&seen[j].0, leaf.name.as_str());
                if known && seen[j].1 == flip {
                    fresh = false;
                }
                j = j + 1;
            }
            if fresh {
                seen.push((leaf.name.clone(), flip));
                ingredients.push(leaf);
                count = count + 1;
            }
        }
        if count < len {
            return None;
        }
        ingredients.push(top);
        Some(
            Sandwich {
                ingredients,
                ensured: Vec::new(),
                complete: true,
                background_color: "#00000000".to_owned(),
            },
        )
    }
}


/// The free leaf names contributed by the first `k` children.
pub open spec fn spec_free_leaf_names_upto(i: Ingredient, k: int) -> Seq<Seq<char>>
    decreases k,
    when k >= 0
{
    if k <= 0 || k > spec_children(i).len() {
        Seq::empty()
    } else if spec_children(i)[k - 1].name@ == spec_base_name() {
        spec_free_leaf_names_upto(i, k - 1)
    } else {
        spec_free_leaf_names_upto(i, k - 1) + spec_free_leaf_names(spec_children(i)[k - 1])
    }
}

/// Adding child `k`'s contribution extends the prefix of free leaf names.
proof fn lemma_free_leaf_split(i: Ingredient, k: int)
    requires
        0 <= k < spec_children(i).len(),
    ensures
        spec_children(i)[k].name@ == spec_base_name() ==> spec_free_leaf_names_upto(i, k + 1)
            == spec_free_leaf_names_upto(i, k),
        spec_children(i)[k].name@ != spec_base_name() ==> spec_free_leaf_names_upto(i, k + 1)
            == spec_free_leaf_names_upto(i, k) + spec_free_leaf_names(spec_children(i)[k]),
{
}

/// The whole-children prefix of free leaf names is the suffix form.
proof fn lemma_free_leaf_upto_all(i: Ingredient)
    ensures
        spec_free_leaf_names_upto(i, spec_children(i).len() as int) == spec_free_leaf_names_from(
            i,
            0,
        ),
{
    lemma_free_leaf_agree(i, 0);
}

/// Prefix and suffix readings of the free-leaf collection agree.
proof fn lemma_free_leaf_agree(i: Ingredient, k: int)
    requires
        0 <= k <= spec_children(i).len(),
    ensures
        spec_free_leaf_names_upto(i, k) + spec_free_leaf_names_from(i, k) == spec_free_leaf_names_upto(
            i,
            spec_children(i).len() as int,
        ),
    decreases spec_children(i).len() - k,
{
    if k < spec_children(i).len() {
        lemma_free_leaf_agree(i, k + 1);
        lemma_free_leaf_split(i, k);
        if spec_children(i)[k].name@ == spec_base_name() {
            assert(spec_free_leaf_names_upto(i, k) + spec_free_leaf_names_from(i, k)
                =~~= spec_free_leaf_names_upto(i, k + 1) + spec_free_leaf_names_from(i, k + 1));
        } else {
            assert(spec_free_leaf_names_upto(i, k) + (spec_free_leaf_names(spec_children(i)[k])
                + spec_free_leaf_names_from(i, k + 1)) =~~= (spec_free_leaf_names_upto(i, k)
                + spec_free_leaf_names(spec_children(i)[k])) + spec_free_leaf_names_from(
                i,
                k + 1,
            ));
        }
    } else {
        assert(spec_free_leaf_names_upto(i, k) + Seq::<Seq<char>>::empty()
            =~~= spec_free_leaf_names_upto(i, k));
    }
}

/// No child carries the morpheme: the walk stays at the fallback.
proof fn lemma_child_with_no_match(cs: Seq<Ingredient>, sy: Syllable, fallback: Ingredient)
    requires
        forall|j: int| 0 <= j < cs.len() ==> cs[j].morpheme != sy,
    ensures
        spec_child_with(cs, sy, fallback) == fallback,
    decreases cs.len(),
{
    if cs.len() > 0 {
        assert(forall|j: int| 0 <= j < cs.drop_first().len() ==> cs.drop_first()[j].morpheme != sy);
        lemma_child_with_no_match(cs.drop_first(), sy, fallback);
    }
}

/// Exactly one child carries the morpheme: the walk moves to it.
proof fn lemma_child_with_unique(cs: Seq<Ingredient>, sy: Syllable, fallback: Ingredient, k: int)
    requires
        0 <= k < cs.len(),
        cs[k].morpheme == sy,
        forall|j: int| 0 <= j < cs.len() && j != k ==> cs[j].morpheme != sy,
    ensures
        spec_child_with(cs, sy, fallback) == cs[k],
    decreases cs.len(),
{
    if k == 0 {
        assert(forall|j: int|
            0 <= j < cs.drop_first().len() ==> cs.drop_first()[j].morpheme != sy);
        lemma_child_with_no_match(cs.drop_first(), sy, cs[0]);
    } else {
        assert(forall|j: int|
            0 <= j < cs.drop_first().len() && j != k - 1 ==> cs.drop_first()[j].morpheme != sy);
        lemma_child_with_unique(cs.drop_first(), sy, fallback, k - 1);
    }
}

/// A found path starts with the root's own morpheme.
proof fn lemma_word_for_shape(i: Ingredient, name: Seq<char>)
    requires
        spec_word_for(i, name) is Some,
    ensures
        spec_word_for(i, name)->Some_0.len() >= 1,
        spec_word_for(i, name)->Some_0[0] == i.morpheme,
{
}

/// A path found among the later children is the path through one of them.
pub proof fn lemma_word_for_from_witness(i: Ingredient, name: Seq<char>, k: int)
    requires
        spec_word_for_from(i, name, k) is Some,
    ensures
        exists|j: int|
            k <= j < spec_children(i).len() && spec_word_for(#[trigger] spec_children(i)[j], name)
                == spec_word_for_from(i, name, k),
    decreases spec_children(i).len() - k,
{
    if 0 <= k < spec_children(i).len() {
        if spec_word_for(spec_children(i)[k], name) is Some {
        } else {
            lemma_word_for_from_witness(i, name, k + 1);
        }
    }
}

/// Whether every morpheme in the tree is a well-formed syllable.
pub open spec fn spec_morphemes_wf(i: Ingredient) -> bool
    decreases i,
{
    crate::grammar::syllable_wf(i.morpheme) && (forall|k: int|
        0 <= k < spec_children(i).len() ==> spec_morphemes_wf(#[trigger] spec_children(i)[k]))
}

/// In a tree of well-formed morphemes, every found path is a well-formed
/// word.
pub proof fn lemma_word_for_wf(i: Ingredient, name: Seq<char>)
    requires
        spec_morphemes_wf(i),
        spec_word_for(i, name) is Some,
    ensures
        crate::grammar::word_wf(spec_word_for(i, name)->Some_0),
    decreases i,
{
    let w = spec_word_for(i, name)->Some_0;
    if i.name@ == name {
        assert(w =~~= seq![i.morpheme]);
    } else {
        lemma_word_for_from_witness(i, name, 0);
        let j: int = choose|j: int|
            0 <= j < spec_children(i).len() && spec_word_for(#[trigger] spec_children(i)[j], name)
                == spec_word_for_from(i, name, 0);
        assert(decreases_to!(i => spec_children(i)[j]));
        lemma_word_for_wf(spec_children(i)[j], name);
        let wc = spec_word_for(spec_children(i)[j], name)->Some_0;
        assert(w == seq![i.morpheme] + wc);
        assert forall|k: int| 0 <= k < w.len() implies crate::grammar::syllable_wf(
            #[trigger] w[k],
        ) by {
            if k == 0 {
                assert(w[0] == i.morpheme);
            } else {
                assert(w[k] == wc[k - 1]);
            }
        }
    }
}

/// A name present somewhere in the tree always has a path.
pub proof fn lemma_word_for_total(i: Ingredient, name: Seq<char>)
    requires
        spec_in_tree(i, name),
    ensures
        spec_word_for(i, name) is Some,
    decreases i,
{
    if i.name@ != name {
        let j: int = choose|j: int|
            0 <= j < spec_children(i).len() && spec_in_tree(#[trigger] spec_children(i)[j], name);
        assert(decreases_to!(i => spec_children(i)[j]));
        lemma_word_for_total(spec_children(i)[j], name);
        lemma_word_for_from_found(i, name, 0, j);
    }
}

/// If the path exists through child `j`, the search from any earlier child
/// also finds a path.
proof fn lemma_word_for_from_found(i: Ingredient, name: Seq<char>, k: int, j: int)
    requires
        0 <= k <= j < spec_children(i).len(),
        spec_word_for(spec_children(i)[j], name) is Some,
    ensures
        spec_word_for_from(i, name, k) is Some,
    decreases j - k,
{
    if k < j && spec_word_for(spec_children(i)[k], name) is None {
        lemma_word_for_from_found(i, name, k + 1, j);
    }
}

/// The ingredient path invariant: for any name present in a well-formed
/// taxonomy, walking the word found for it lands on a node bearing exactly
/// that name.
pub proof fn lemma_ingredient_path_roundtrip(i: Ingredient, name: Seq<char>)
    requires
        spec_tree_wf(i),
        spec_word_for(i, name) is Some,
    ensures
        spec_from_word(i, spec_word_for(i, name)->Some_0).name@ == name,
    decreases i,
{
    let w = spec_word_for(i, name)->Some_0;
    if i.name@ == name {
        assert(w =~~= seq![i.morpheme]);
        assert(w.drop_first() =~~= Seq::<Syllable>::empty());
    } else {
        lemma_word_for_from_witness(i, name, 0);
        let j: int = choose|j: int|
            0 <= j < spec_children(i).len() && spec_word_for(#[trigger] spec_children(i)[j], name)
                == spec_word_for_from(i, name, 0);
        let c = spec_children(i)[j];
        let wc = spec_word_for(c, name)->Some_0;
        lemma_word_for_shape(c, name);
        assert(w =~~= seq![i.morpheme] + wc);
        assert(w.drop_first() =~~= wc);
        assert(forall|x: int|
            0 <= x < spec_children(i).len() && x != j ==> spec_children(i)[x].morpheme
                != c.morpheme);
        lemma_child_with_unique(spec_children(i), c.morpheme, i, j);
        assert(spec_step(i, wc[0]) == c);
        assert(decreases_to!(i => spec_children(i)[j]));
        lemma_ingredient_path_roundtrip(c, name);
        assert(spec_from_word(c, wc) == spec_descend(c, wc.drop_first()));
        assert(spec_descend(i, wc) == spec_descend(spec_step(i, wc[0]), wc.drop_first()));
    }
}

impl Sandwich {
    /// Each ingredient's surface word from the taxonomy, in order; an
    /// ingredient the taxonomy no longer knows renders as an empty word.
    pub fn to_words(&self, dictionary: &crate::grammar::Dictionary) -> (r: Vec<Word>)
        ensures
            r@.len() == self.ingredients@.len(),
            forall|k: int|
                0 <= k < r@.len() ==> (#[trigger] r@[k])@ == (match spec_word_for(
                    dictionary.ingredients,
                    self.ingredients@[k].name@,
                ) {
                    Some(w) => w,
                    None => Seq::<Syllable>::empty(),
                }),
    {
        let mut out: Vec<Word> = Vec::new();
        let mut i: usize = 0;
        while i < self.ingredients.len()
            invariant
                i <= self.ingredients@.len(),
                out@.len() == i,
                forall|k: int|
                    0 <= k < i ==> (#[trigger] out@[k])@ == (match spec_word_for(
                        dictionary.ingredients,
                        self.ingredients@[k].name@,
                    ) {
                        Some(w) => w,
                        None => Seq::<Syllable>::empty(),
                    }),
            decreases self.ingredients@.len() - i,
        {
            let w: Word = match dictionary.ingredients.to_word(&self.ingredients[i]) {
                Some(w) => w,
                None => Word { syllables: Vec::new() },
            };
            out.push(w);
            i = i + 1;
        }
        out
    }
}

} // verus!
