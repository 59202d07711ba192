//! The binding environment: a flat mapping from symbol names to values,
//! seeded at construction with the arithmetic builtins.

use vstd::prelude::*;

use crate::parser::spec_view;
use crate::parser::Builtin;
use crate::parser::Expr;
use crate::parser::SpecExpr;

verus! {

/// The model of an environment's entries: a map from symbol name to the
/// model of the bound value. An earlier entry shadows a later one with the
/// same name.
pub open spec fn env_map(entries: Seq<(String, Expr)>) -> Map<Seq<char>, SpecExpr>
    decreases entries.len(),
{
    if entries.len() == 0 {
        Map::empty()
    } else {
        env_map(entries.drop_first()).insert(entries[0].0@, spec_view(entries[0].1))
    }
}

/// The bindings every fresh environment holds: the builtin operators `+`
/// and `-`, and nothing else.
pub open spec fn default_env() -> Map<Seq<char>, SpecExpr> {
    Map::empty().insert("-"@, SpecExpr::Fun(Builtin::Sub)).insert(
        "+"@,
        SpecExpr::Fun(Builtin::Add),
    )
}

/// A mutable mapping from symbol names to values; one flat scope.
#[derive(Debug)]
pub struct Env {
    pub inner: Vec<(String, Expr)>,
}

impl View for Env {
    type V = Map<Seq<char>, SpecExpr>;

    open spec fn view(&self) -> Map<Seq<char>, SpecExpr> {
        env_map(self.inner@)
    }
}

proof fn lemma_env_map_found(entries: Seq<(String, Expr)>, name: Seq<char>, k: int)
    requires
        0 <= k < entries.len(),
        forall|j: int| 0 <= j < k ==> entries[j].0@ != name,
        entries[k].0@ == name,
    ensures
        env_map(entries).contains_key(name),
        env_map(entries)[name] == spec_view(entries[k].1),
    decreases k,
{
    if k > 0 {
        assert(forall|j: int| 0 <= j < k - 1 ==> entries.drop_first()[j] == entries[j + 1]);
        lemma_env_map_found(entries.drop_first(), name, k - 1);
    }
}

proof fn lemma_env_map_absent(entries: Seq<(String, Expr)>, name: Seq<char>)
    requires
        forall|j: int| 0 <= j < entries.len() ==> entries[j].0@ != name,
    ensures
        !env_map(entries).contains_key(name),
    decreases entries.len(),
{
    if entries.len() > 0 {
        lemma_env_map_absent(entries.drop_first(), name);
    }
}

impl Env {
    /// A fresh environment holding exactly the default builtins.
    pub fn new() -> (r: Self)
        ensures
            r@ == default_env(),
    {
        Env::default()
    }

    /// The value bound to `name`, or nothing when `name` is unbound.
    pub fn get(&self, name: &String) -> (r: Option<&Expr>)
        ensures
            match r {
                Some(v) => self@.contains_key(name@) && self@[name@] == v@,
                None => !self@.contains_key(name@),
            },
    {
        let mut k: usize = 0;
        while k < self.inner.len()
            invariant
                k <= self.inner@.len(),
                forall|j: int| 0 <= j < k ==> (#[trigger] self.inner@[j]).0@ != name@,
            decreases self.inner@.len() - k,
        {
            let pair = &self.inner[k];
            if pair.0 == *name {
                proof {
                    lemma_env_map_found(self.inner@, name@, k as int);
                }
                return Some(&pair.1);
            }
            k += 1;
        }
        proof {
            lemma_env_map_absent(self.inner@, name@);
        }
        None
    }
}

impl Default for Env {
    /// The environment the interpreter starts from: `+` and `-` bound to
    /// their builtins.
    fn default() -> (r: Self)
        ensures
            r@ == default_env(),
    {
        let mut inner: Vec<(String, Expr)> = Vec::new();
        inner.push(("+".to_owned(), Expr::Fun(Builtin::Add)));
        inner.push(("-".to_owned(), Expr::Fun(Builtin::Sub)));
        proof {
            let e = inner@;
            assert(e.len() == 2);
            assert(e[0].0@ == "+"@ && spec_view(e[0].1) == SpecExpr::Fun(Builtin::Add));
            assert(e[1].0@ == "-"@ && spec_view(e[1].1) == SpecExpr::Fun(Builtin::Sub));
            let d1 = e.drop_first();
            assert(d1[0] == e[1]);
            let d2 = d1.drop_first();
            assert(d2.len() == 0);
            assert(env_map(d2) =~= Map::<Seq<char>, SpecExpr>::empty());
            assert(env_map(d1) =~= Map::<Seq<char>, SpecExpr>::empty().insert(
                "-"@,
                SpecExpr::Fun(Builtin::Sub),
            ));
            assert(env_map(e) =~= default_env());
        }
        Env { inner }
    }
}

} // verus!
