//! The symbol table and the fixed operator namespace.

use vstd::prelude::*;

verus! {

/// Compares two byte strings for equality.
pub fn bytes_eq(a: &Vec<u8>, b: &Vec<u8>) -> (r: bool)
    ensures
        r == (a@ == b@),
{
    if a.len() != b.len() {
        assert(a@ != b@);
        return false;
    }
    let n = a.len();
    let mut i: usize = 0;
    while i < n
        invariant
            n == a@.len() == b@.len(),
            i <= n,
            forall|k: int| 0 <= k < i ==> a@[k] == b@[k],
        decreases n - i,
    {
        if a[i] != b[i] {
            return false;
        }
        i = i + 1;
    }
    proof {
        assert(a@ =~= b@);
    }
    true
}

/// The append-only table that interns symbol names to stable small indices.
pub struct Env {
    pub symbols: Vec<Vec<u8>>,
}

impl View for Env {
    type V = Seq<Seq<u8>>;

    open spec fn view(&self) -> Seq<Seq<u8>> {
        Seq::new(self.symbols@.len(), |i: int| self.symbols@[i]@)
    }
}

impl Env {
    /// All interned names are distinct, so each symbol has exactly one index.
    pub open spec fn wf(&self) -> bool {
        forall|i: int, j: int| 0 <= i < j < self@.len() ==> self@[i] != self@[j]
    }

    pub fn new() -> (env: Env)
        ensures
            env.wf(),
            env@ == Seq::<Seq<u8>>::empty(),
    {
        let env = Env { symbols: Vec::new() };
        proof {
            assert(env@ =~= Seq::<Seq<u8>>::empty());
        }
        env
    }

    /// Interns `name`: returns the existing index when the name was seen
    /// before (found by linear scan), otherwise appends it and returns the
    /// new index. Indices, once handed out, never move.
    pub fn add_sym(&mut self, name: Vec<u8>) -> (r: usize)
        requires
            old(self).wf(),
        ensures
            final(self).wf(),
            r < final(self)@.len(),
            final(self)@[r as int] == name@,
            old(self)@.contains(name@) ==> final(self)@ == old(self)@,
            !old(self)@.contains(name@) ==> final(self)@ == old(self)@.push(name@)
                && r == old(self)@.len(),
            forall|k: int| 0 <= k < old(self)@.len() ==> final(self)@[k] == old(self)@[k],
    {
        let n = self.symbols.len();
        let mut i: usize = 0;
        while i < n
            invariant
                old(self).wf(),
                n == self@.len(),
                i <= n,
                *self == *old(self),
                forall|k: int| 0 <= k < i ==> self@[k] != name@,
            decreases n - i,
        {
            if bytes_eq(&self.symbols[i], &name) {
                proof {
                    assert(self@[i as int] == name@);
                    assert(self@.contains(name@));
                    assert(self@ =~= old(self)@);
                }
                return i;
            }
            i = i + 1;
        }
        proof {
            assert(!self@.contains(name@));
        }
        self.symbols.push(name);
        proof {
            assert(self@ =~= old(self)@.push(name@));
        }
        n
    }
}

/// The fixed operator table: each built-in operator's symbol index, interned
/// once at startup and bound for the whole session.
#[derive(Copy, Clone, Debug, PartialEq, Eq, Structural)]
pub struct DefaultNS {
    pub add: usize,
    pub sub: usize,
    pub mul: usize,
    pub div: usize,
    pub modu: usize,
    pub cons: usize,
    pub hd: usize,
    pub tl: usize,
    pub quote: usize,
}

impl DefaultNS {
    /// All operator indices point at their names; since the names differ,
    /// the indices do too.
    pub open spec fn wf(&self, symbols: Seq<Seq<u8>>) -> bool {
        &&& self.add < symbols.len() && symbols[self.add as int] == seq![97u8, 100u8, 100u8]
        &&& self.sub < symbols.len() && symbols[self.sub as int] == seq![115u8, 117u8, 98u8]
        &&& self.mul < symbols.len() && symbols[self.mul as int] == seq![109u8, 117u8, 108u8]
        &&& self.div < symbols.len() && symbols[self.div as int] == seq![100u8, 105u8, 118u8]
        &&& self.modu < symbols.len() && symbols[self.modu as int] == seq![109u8, 111u8, 100u8]
        &&& self.cons < symbols.len() && symbols[self.cons as int] == seq![99u8, 111u8, 110u8, 115u8]
        &&& self.hd < symbols.len() && symbols[self.hd as int] == seq![104u8, 100u8]
        &&& self.tl < symbols.len() && symbols[self.tl as int] == seq![116u8, 108u8]
        &&& self.quote < symbols.len() && symbols[self.quote as int] == seq![39u8]
    }

    /// Interns the nine operator names.
    pub fn new(env: &mut Env) -> (ns: DefaultNS)
        requires
            old(env).wf(),
        ensures
            final(env).wf(),
            ns.wf(final(env)@),
            forall|k: int| 0 <= k < old(env)@.len() ==> final(env)@[k] == old(env)@[k],
            final(env)@.len() >= old(env)@.len(),
            old(env)@.len() == 0 ==> ns == (DefaultNS {
                add: 0usize,
                sub: 1usize,
                mul: 2usize,
                div: 3usize,
                modu: 4usize,
                cons: 5usize,
                hd: 6usize,
                tl: 7usize,
                quote: 8usize,
            }) && final(env)@ == seq![
                seq![97u8, 100u8, 100u8],
                seq![115u8, 117u8, 98u8],
                seq![109u8, 117u8, 108u8],
                seq![100u8, 105u8, 118u8],
                seq![109u8, 111u8, 100u8],
                seq![99u8, 111u8, 110u8, 115u8],
                seq![104u8, 100u8],
                seq![116u8, 108u8],
                seq![39u8],
            ],
    {
        let add = env.add_sym(vec![97u8, 100u8, 100u8]);
        let sub = env.add_sym(vec![115u8, 117u8, 98u8]);
        let mul = env.add_sym(vec![109u8, 117u8, 108u8]);
        let div = env.add_sym(vec![100u8, 105u8, 118u8]);
        let modu = env.add_sym(vec![109u8, 111u8, 100u8]);
        let cons = env.add_sym(vec![99u8, 111u8, 110u8, 115u8]);
        let hd = env.add_sym(vec![104u8, 100u8]);
        let tl = env.add_sym(vec![116u8, 108u8]);
        let quote = env.add_sym(vec![39u8]);
        proof {
            if old(env)@.len() == 0 {
                let names = seq![
                    seq![97u8, 100u8, 100u8],
                    seq![115u8, 117u8, 98u8],
                    seq![109u8, 117u8, 108u8],
                    seq![100u8, 105u8, 118u8],
                    seq![109u8, 111u8, 100u8],
                    seq![99u8, 111u8, 110u8, 115u8],
                    seq![104u8, 100u8],
                    seq![116u8, 108u8],
                    seq![39u8],
                ];
                assert(env@.len() == 9);
                assert(env@ =~~= names);
                assert(add == 0 && sub == 1 && mul == 2 && div == 3 && modu == 4 && cons == 5
                    && hd == 6 && tl == 7 && quote == 8);
            }
            assert(env@[add as int] == seq![97u8, 100u8, 100u8]);
            assert(env@[sub as int] == seq![115u8, 117u8, 98u8]);
            assert(env@[mul as int] == seq![109u8, 117u8, 108u8]);
            assert(env@[div as int] == seq![100u8, 105u8, 118u8]);
            assert(env@[modu as int] == seq![109u8, 111u8, 100u8]);
            assert(env@[cons as int] == seq![99u8, 111u8, 110u8, 115u8]);
            assert(env@[hd as int] == seq![104u8, 100u8]);
            assert(env@[tl as int] == seq![116u8, 108u8]);
            assert(env@[quote as int] == seq![39u8]);
        }
        DefaultNS { add, sub, mul, div, modu, cons, hd, tl, quote }
    }
}

} // verus!
