//! The scoped environment: a stack of name-to-array layers.
use vstd::prelude::*;
use crate::values::{ArrayV, PrimativeArray};

verus! {

/// Model of one layer: later entries for a name hide earlier ones.
pub open spec fn layer_view(s: Seq<(String, PrimativeArray)>) -> Map<Seq<char>, ArrayV>
    decreases s.len(),
{
    if s.len() == 0 {
        Map::empty()
    } else {
        layer_view(s.drop_last()).insert(s.last().0@, s.last().1@)
    }
}

/// The binding of `k` that is found first when searching the layers of `env`
/// from the innermost (last) to the outermost (first).
pub open spec fn lookup(env: Seq<Map<Seq<char>, ArrayV>>, k: Seq<char>) -> Option<ArrayV>
    decreases env.len(),
{
    if env.len() == 0 {
        None
    } else if env.last().contains_key(k) {
        Some(env.last()[k])
    } else {
        lookup(env.drop_last(), k)
    }
}

/// `env` with `k` bound to `v` in its innermost layer.
pub open spec fn bind(env: Seq<Map<Seq<char>, ArrayV>>, k: Seq<char>, v: ArrayV) -> Seq<
    Map<Seq<char>, ArrayV>,
> {
    env.update(env.len() - 1, env.last().insert(k, v))
}

/// Variables in scope during an evaluation, innermost layer last.
pub struct Stack {
    variables: Vec<Vec<(String, PrimativeArray)>>,
}

impl View for Stack {
    type V = Seq<Map<Seq<char>, ArrayV>>;

    closed spec fn view(&self) -> Seq<Map<Seq<char>, ArrayV>> {
        self.variables@.map_values(|l: Vec<(String, PrimativeArray)>| layer_view(l@))
    }
}

/// The entry at `i` is the last one for its name.
spec fn last_for(s: Seq<(String, PrimativeArray)>, i: int) -> bool {
    forall|j: int| i < j < s.len() ==> s[j].0@ != s[i].0@
}

/// The last entry for a name gives that name's binding in the layer.
proof fn lemma_layer_found(s: Seq<(String, PrimativeArray)>, i: int)
    requires
        0 <= i < s.len(),
        last_for(s, i),
    ensures
        layer_view(s).contains_key(s[i].0@),
        layer_view(s)[s[i].0@] == s[i].1@,
    decreases s.len(),
{
    if i < s.len() - 1 {
        lemma_layer_found(s.drop_last(), i);
    }
}

/// A name with no entry is unbound in the layer.
proof fn lemma_layer_absent(s: Seq<(String, PrimativeArray)>, k: Seq<char>)
    requires
        forall|j: int| 0 <= j < s.len() ==> s[j].0@ != k,
    ensures
        !layer_view(s).contains_key(k),
    decreases s.len(),
{
    if s.len() > 0 {
        lemma_layer_absent(s.drop_last(), k);
    }
}

/// Replacing the last entry for a name rebinds that name in the layer.
proof fn lemma_layer_overwrite(
    s: Seq<(String, PrimativeArray)>,
    i: int,
    k: String,
    v: PrimativeArray,
)
    requires
        0 <= i < s.len(),
        last_for(s, i),
        s[i].0@ == k@,
    ensures
        layer_view(s.update(i, (k, v))) == layer_view(s).insert(k@, v@),
    decreases s.len(),
{
    let t = s.update(i, (k, v));
    if i == s.len() - 1 {
        assert(t.drop_last() =~= s.drop_last());
        assert(layer_view(t) =~= layer_view(s).insert(k@, v@));
    } else {
        lemma_layer_overwrite(s.drop_last(), i, k, v);
        assert(t.drop_last() =~= s.drop_last().update(i, (k, v)));
        assert(layer_view(t) =~= layer_view(s).insert(k@, v@));
    }
}

/// Position of the last entry of `layer` named `key`.
fn find_in_layer(layer: &Vec<(String, PrimativeArray)>, key: &String) -> (r: Option<usize>)
    ensures
        r is Some ==> r->0 < layer@.len() && layer@[r->0 as int].0@ == key@ && last_for(
            layer@,
            r->0 as int,
        ),
        r is None ==> forall|j: int| 0 <= j < layer@.len() ==> layer@[j].0@ != key@,
{
    let mut i: usize = layer.len();
    while i > 0
        invariant
            i <= layer@.len(),
            forall|j: int| i <= j < layer@.len() ==> layer@[j].0@ != key@,
        decreases i,
    {
        if layer[i - 1].0 == *key {
            return Some(i - 1);
        }
        i = i - 1;
    }
    None
}

impl Stack {
    /// An environment with no layers.
    pub fn new() -> (r: Stack)
        ensures
            r@ == Seq::<Map<Seq<char>, ArrayV>>::empty(),
    {
        let r = Stack { variables: Vec::new() };
        assert(r@ =~= Seq::<Map<Seq<char>, ArrayV>>::empty());
        r
    }

    /// Number of layers.
    pub fn depth(&self) -> (r: usize)
        ensures
            r == self@.len(),
    {
        self.variables.len()
    }

    /// Adds an empty innermost layer.
    pub fn add_layer(&mut self)
        ensures
            final(self)@ == old(self)@.push(Map::empty()),
    {
        self.variables.push(Vec::new());
        assert(layer_view(Seq::<(String, PrimativeArray)>::empty()) =~= Map::empty());
        assert(self@ =~= old(self)@.push(Map::empty()));
    }

    /// Removes the innermost layer.
    pub fn remove_layer(&mut self)
        requires
            old(self)@.len() > 0,
        ensures
            final(self)@ == old(self)@.drop_last(),
    {
        let _ = self.variables.pop();
        assert(self@ =~= old(self)@.drop_last());
    }

    /// The innermost binding of `key`, searching from the innermost layer out.
    pub fn get_var(&self, key: &String) -> (r: Option<&PrimativeArray>)
        ensures
            r is Some ==> lookup(self@, key@) == Some(r->0@),
            r is None ==> lookup(self@, key@) is None,
    {
        let mut i: usize = self.variables.len();
        assert(self@.take(i as int) =~= self@);
        while i > 0
            invariant
                i <= self.variables@.len(),
                lookup(self@, key@) == lookup(self@.take(i as int), key@),
            decreases i,
        {
            let layer = &self.variables[i - 1];
            let found = find_in_layer(layer, key);
            proof {
                assert(self@.take(i as int).drop_last() =~= self@.take(i - 1));
            }
            match found {
                Some(j) => {
                    proof {
                        lemma_layer_found(layer@, j as int);
                    }
                    return Some(&layer[j].1);
                },
                None => {
                    proof {
                        lemma_layer_absent(layer@, key@);
                    }
                },
            }
            i = i - 1;
        }
        None
    }

    /// Binds `key` to `val` in the innermost layer, replacing a binding of the
    /// same name in that layer only.
    pub fn set_var(&mut self, key: String, val: PrimativeArray)
        requires
            old(self)@.len() > 0,
        ensures
            final(self)@ == bind(old(self)@, key@, val@),
    {
        let mut layer = self.variables.pop().unwrap();
        let ghost before = layer@;
        match find_in_layer(&layer, &key) {
            Some(j) => {
                proof {
                    lemma_layer_overwrite(before, j as int, key, val);
                }
                layer.set(j, (key, val));
            },
            None => {
                assert(layer@.push((key, val)).drop_last() =~= layer@);
                layer.push((key, val));
            },
        }
        self.variables.push(layer);
        assert(self@ =~= bind(old(self)@, key@, val@));
    }
}

} // verus!
