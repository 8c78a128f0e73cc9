use crate::token::{clone_tokens, Token, TokenModel};
use vstd::prelude::*;

verus! {

/// One variable with the tokens last assigned to it.
#[derive(Debug)]
pub struct Binding {
    name: String,
    value: Vec<Token>,
}

/// The variables of a running program: each name with the tokens last
/// assigned to it.
#[derive(Debug)]
pub struct Environment {
    entries: Vec<Binding>,
}

/// The mapping that a list of bindings stands for: a later binding of a
/// name replaces an earlier one.
pub closed spec fn bindings_model(entries: Seq<Binding>) -> Map<Seq<char>, Seq<TokenModel>>
    decreases entries.len(),
{
    if entries.len() == 0 {
        Map::empty()
    } else {
        bindings_model(entries.drop_last()).insert(
            entries.last().name@,
            entries.last().value.deep_view(),
        )
    }
}

/// No binding after position `i` has the name of the binding at `i`.
spec fn is_last_of_name(entries: Seq<Binding>, i: int) -> bool {
    forall|j: int| i < j < entries.len() ==> entries[j].name@ != entries[i].name@
}

proof fn lemma_missing_name(entries: Seq<Binding>, name: Seq<char>)
    requires
        forall|j: int| 0 <= j < entries.len() ==> entries[j].name@ != name,
    ensures
        !bindings_model(entries).contains_key(name),
    decreases entries.len(),
{
    if entries.len() > 0 {
        lemma_missing_name(entries.drop_last(), name);
    }
}

proof fn lemma_last_of_name(entries: Seq<Binding>, i: int)
    requires
        0 <= i < entries.len(),
        is_last_of_name(entries, i),
    ensures
        bindings_model(entries).contains_key(entries[i].name@),
        bindings_model(entries)[entries[i].name@] == entries[i].value.deep_view(),
    decreases entries.len(),
{
    if i < entries.len() - 1 {
        lemma_last_of_name(entries.drop_last(), i);
    }
}

proof fn lemma_replace_last_of_name(entries: Seq<Binding>, i: int, b: Binding)
    requires
        0 <= i < entries.len(),
        is_last_of_name(entries, i),
        b.name@ == entries[i].name@,
    ensures
        bindings_model(entries.update(i, b)) == bindings_model(entries).insert(
            b.name@,
            b.value.deep_view(),
        ),
    decreases entries.len(),
{
    let after = entries.update(i, b);
    if i < entries.len() - 1 {
        lemma_replace_last_of_name(entries.drop_last(), i, b);
        assert(after.drop_last() =~= entries.drop_last().update(i, b));
        assert(after.last() == entries.last());
        assert(bindings_model(after) =~= bindings_model(entries).insert(
            b.name@,
            b.value.deep_view(),
        ));
    } else {
        assert(after.drop_last() =~= entries.drop_last());
        assert(bindings_model(after) =~= bindings_model(entries).insert(
            b.name@,
            b.value.deep_view(),
        ));
    }
}

impl View for Environment {
    type V = Map<Seq<char>, Seq<TokenModel>>;

    closed spec fn view(&self) -> Map<Seq<char>, Seq<TokenModel>> {
        bindings_model(self.entries@)
    }
}

impl Environment {
    /// An environment in which no variable is bound.
    pub fn new() -> (r: Environment)
        ensures
            r@ == Map::<Seq<char>, Seq<TokenModel>>::empty(),
    {
        Environment { entries: Vec::new() }
    }

    /// The position of the last binding of the name, if there is one.
    fn position(&self, name: &String) -> (r: Option<usize>)
        ensures
            match r {
                Some(i) => i < self.entries.len() && self.entries[i as int].name@ == name@
                    && is_last_of_name(self.entries@, i as int),
                None => forall|j: int|
                    0 <= j < self.entries.len() ==> self.entries[j].name@ != name@,
            },
    {
        let mut i: usize = self.entries.len();
        while i > 0
            invariant
                i <= self.entries.len(),
                forall|j: int| i <= j < self.entries.len() ==> self.entries[j].name@ != name@,
            decreases i,
        {
            i -= 1;
            if self.entries[i].name == *name {
                return Some(i);
            }
        }
        None
    }

    /// Whether the name is bound.
    pub fn contains_key(&self, name: &String) -> (r: bool)
        ensures
            r == self@.contains_key(name@),
    {
        match self.position(name) {
            Some(i) => {
                proof {
                    lemma_last_of_name(self.entries@, i as int);
                }
                true
            },
            None => {
                proof {
                    lemma_missing_name(self.entries@, name@);
                }
                false
            },
        }
    }

    /// The tokens bound to the name, if it is bound.
    pub fn get(&self, name: &String) -> (r: Option<&Vec<Token>>)
        ensures
            match r {
                Some(v) => self@.contains_key(name@) && v.deep_view() == self@[name@],
                None => !self@.contains_key(name@),
            },
    {
        match self.position(name) {
            Some(i) => {
                proof {
                    lemma_last_of_name(self.entries@, i as int);
                }
                Some(&self.entries[i].value)
            },
            None => {
                proof {
                    lemma_missing_name(self.entries@, name@);
                }
                None
            },
        }
    }

    /// Binds the name to the tokens, in place of what it was bound to before.
    pub fn insert(&mut self, name: String, value: Vec<Token>)
        ensures
            final(self)@ == old(self)@.insert(name@, value.deep_view()),
    {
        let found = self.position(&name);
        let binding = Binding { name, value };
        match found {
            Some(i) => {
                proof {
                    lemma_replace_last_of_name(self.entries@, i as int, binding);
                }
                self.entries.set(i, binding);
            },
            None => {
                let ghost before = self.entries@;
                self.entries.push(binding);
                assert(self.entries@.drop_last() =~= before);
            },
        }
    }

    /// The names that are bound, each once.
    pub fn names(&self) -> (r: Vec<String>)
        ensures
            forall|k: Seq<char>|
                self@.contains_key(k) <==> exists|i: int| 0 <= i < r.len() && r[i]@ == k,
            forall|i: int, j: int| 0 <= i < j < r.len() ==> r[i]@ != r[j]@,
    {
        let mut out: Vec<String> = Vec::new();
        let mut i: usize = 0;
        while i < self.entries.len()
            invariant
                i <= self.entries.len(),
                forall|k: Seq<char>|
                    bindings_model(self.entries@.take(i as int)).contains_key(k) <==> exists|
                        j: int,
                    |
                        0 <= j < out.len() && out[j]@ == k,
                forall|a: int, b: int| 0 <= a < b < out.len() ==> out[a]@ != out[b]@,
            decreases self.entries.len() - i,
        {
            let ghost before = out@;
            let ghost prefix = self.entries@.take(i as int);
            let name = &self.entries[i].name;
            let mut seen = false;
            let mut j: usize = 0;
            while j < out.len()
                invariant
                    j <= out.len(),
                    seen == exists|a: int| 0 <= a < j && out[a]@ == name@,
                decreases out.len() - j,
            {
                if out[j] == *name {
                    seen = true;
                }
                j += 1;
            }
            if !seen {
                out.push(name.clone());
            }
            proof {
                let next = self.entries@.take(i + 1);
                assert(next.drop_last() =~= prefix);
                assert(next.last() == self.entries[i as int]);
                assert forall|k: Seq<char>|
                    bindings_model(next).contains_key(k) <==> exists|a: int|
                        0 <= a < out.len() && out[a]@ == k by {
                    if bindings_model(next).contains_key(k) {
                        if k == name@ {
                            if seen {
                                let a = choose|a: int| 0 <= a < before.len() && before[a]@ == name@;
                                assert(out[a]@ == k);
                            } else {
                                assert(out[out.len() - 1]@ == k);
                            }
                        } else {
                            assert(bindings_model(prefix).contains_key(k));
                            let a = choose|a: int| 0 <= a < before.len() && before[a]@ == k;
                            assert(out[a]@ == k);
                        }
                    }
                    if exists|a: int| 0 <= a < out.len() && out[a]@ == k {
                        let a = choose|a: int| 0 <= a < out.len() && out[a]@ == k;
                        if a < before.len() {
                            assert(before[a]@ == k);
                            assert(bindings_model(prefix).contains_key(k));
                        }
                    }
                }
            }
            i += 1;
        }
        assert(self.entries@.take(i as int) =~= self.entries@);
        out
    }
}

impl Clone for Environment {
    fn clone(&self) -> (r: Environment)
        ensures
            r@ == self@,
    {
        let mut out: Vec<Binding> = Vec::new();
        let mut i: usize = 0;
        while i < self.entries.len()
            invariant
                i <= self.entries.len(),
                out.len() == i,
                bindings_model(out@) == bindings_model(self.entries@.take(i as int)),
            decreases self.entries.len() - i,
        {
            let ghost before = out@;
            let b = Binding {
                name: self.entries[i].name.clone(),
                value: clone_tokens(&self.entries[i].value),
            };
            out.push(b);
            proof {
                let next = self.entries@.take(i + 1);
                assert(next.drop_last() =~= self.entries@.take(i as int));
                assert(out@.drop_last() =~= before);
            }
            i += 1;
        }
        assert(self.entries@.take(i as int) =~= self.entries@);
        Environment { entries: out }
    }
}

} // verus!
