//! Enumeration of all length-`n` tuples over an ordered alphabet of symbols.
//!
//! A tuple is the concatenation of `n` symbols drawn, with repetition, from
//! the alphabet. The enumeration order is fixed: the result for `n <= 1` is
//! the alphabet itself, and for `n > 1` every symbol of the alphabet, in
//! order, is prefixed to every tuple one level down, in order, so the first
//! symbol of a tuple is the most significant digit of a base-`k` numbering
//! over the alphabet.

use vstd::arithmetic::div_mod::{
    lemma_div_pos_is_pos, lemma_fundamental_div_mod_converse, lemma_mod_pos_bound,
    lemma_multiply_divide_lt,
};
use vstd::arithmetic::power::{lemma_pow1, pow};
use vstd::prelude::*;
use vstd::string::StringExecFns;

verus! {

/// The sequence of all length-`n` tuples over `sigma`, each tuple a
/// concatenation of `n` symbols. For `n <= 1` this is `sigma` itself
/// (the behavior for `n == 0` is deliberately the same as for `n == 1`);
/// for `n > 1`, tuple `i` is the symbol `sigma[i / p]` followed by tuple
/// `i % p` of the level below, where `p` counts the tuples one level down.
pub open spec fn tuple_seq(n: nat, sigma: Seq<Seq<char>>) -> Seq<Seq<char>>
    decreases n,
{
    if n <= 1 {
        sigma
    } else {
        let prev = tuple_seq((n - 1) as nat, sigma);
        Seq::new(
            sigma.len() * prev.len(),
            |i: int| sigma[i / (prev.len() as int)] + prev[i % (prev.len() as int)],
        )
    }
}

/// The four nucleotide symbols, one character each, in the fixed order
/// A, C, T, G that the nucleotide enumeration uses.
pub open spec fn nuc_alphabet() -> Seq<Seq<char>> {
    seq![seq!['A'], seq!['C'], seq!['T'], seq!['G']]
}

/// One of the four nucleotides. The declaration order A, T, G, C is
/// unrelated to the enumeration order of [`nuc_alphabet`].
#[derive(Clone, Copy, Debug, PartialEq, Eq, Structural)]
pub enum Nucleotide {
    A,
    T,
    G,
    C,
}

impl Nucleotide {
    /// The single display character of this nucleotide.
    pub open spec fn spec_symbol(self) -> Seq<char> {
        match self {
            Nucleotide::A => seq!['A'],
            Nucleotide::T => seq!['T'],
            Nucleotide::G => seq!['G'],
            Nucleotide::C => seq!['C'],
        }
    }

    /// Renders this nucleotide as its one-character display string.
    pub fn symbol(&self) -> (r: String)
        ensures
            r@ == self.spec_symbol(),
    {
        match self {
            Nucleotide::A => {
                proof {
                    reveal_strlit("A");
                    assert("A"@ =~= seq!['A']);
                }
                String::from_str("A")
            },
            Nucleotide::T => {
                proof {
                    reveal_strlit("T");
                    assert("T"@ =~= seq!['T']);
                }
                String::from_str("T")
            },
            Nucleotide::G => {
                proof {
                    reveal_strlit("G");
                    assert("G"@ =~= seq!['G']);
                }
                String::from_str("G")
            },
            Nucleotide::C => {
                proof {
                    reveal_strlit("C");
                    assert("C"@ =~= seq!['C']);
                }
                String::from_str("C")
            },
        }
    }
}

/// All tuples of size `n` for the alphabet defined by `sigma`.
pub fn all_tuples(n: u16, sigma: &Vec<String>) -> (r: Vec<String>)
    ensures
        r.deep_view() == tuple_seq(n as nat, sigma.deep_view()),
    decreases n,
{
    if n > 1 {
        let ts = all_tuples(n - 1, sigma);
        let ghost goal = tuple_seq(n as nat, sigma.deep_view());
        let mut v: Vec<String> = Vec::new();
        let mut bi: usize = 0;
        while bi < sigma.len()
            invariant
                n > 1,
                ts.deep_view() == tuple_seq((n - 1) as nat, sigma.deep_view()),
                goal == tuple_seq(n as nat, sigma.deep_view()),
                bi <= sigma.len(),
                v@.len() == bi * ts@.len(),
                forall|j: int| 0 <= j < v@.len() ==> v@[j]@ == goal[j],
            decreases sigma.len() - bi,
        {
            let mut ti: usize = 0;
            while ti < ts.len()
                invariant
                    n > 1,
                    ts.deep_view() == tuple_seq((n - 1) as nat, sigma.deep_view()),
                    goal == tuple_seq(n as nat, sigma.deep_view()),
                    bi < sigma.len(),
                    ti <= ts@.len(),
                    v@.len() == bi * ts@.len() + ti,
                    forall|j: int| 0 <= j < v@.len() ==> v@[j]@ == goal[j],
                decreases ts@.len() - ti,
            {
                let t = sigma[bi].clone().concat(ts[ti].as_str());
                proof {
                    let p = ts@.len() as int;
                    let sd = sigma.deep_view();
                    let prev = tuple_seq((n - 1) as nat, sd);
                    assert(prev.len() == p);
                    assert(goal.len() == sd.len() * p);
                    assert(bi * p + ti < sd.len() * p) by (nonlinear_arith)
                        requires
                            0 <= (bi as int) < sd.len(),
                            0 <= (ti as int) < p,
                    ;
                    lemma_fundamental_div_mod_converse(
                        v@.len() as int,
                        p,
                        bi as int,
                        ti as int,
                    );
                    assert(goal[v@.len() as int] == sd[bi as int] + prev[ti as int]);
                    assert(t@ == sd[bi as int] + prev[ti as int]);
                }
                v.push(t);
                ti = ti + 1;
            }
            proof {
                assert((bi + 1) * ts@.len() == bi * ts@.len() + ts@.len())
                    by (nonlinear_arith);
            }
            bi = bi + 1;
        }
        proof {
            assert(v.deep_view() =~= goal);
        }
        v
    } else {
        let mut v: Vec<String> = Vec::new();
        let mut i: usize = 0;
        while i < sigma.len()
            invariant
                i <= sigma.len(),
                v@.len() == i,
                forall|j: int| 0 <= j < v@.len() ==> v@[j]@ == sigma.deep_view()[j],
            decreases sigma.len() - i,
        {
            v.push(sigma[i].clone());
            i = i + 1;
        }
        proof {
            assert(v.deep_view() =~= sigma.deep_view());
        }
        v
    }
}

/// All nucleotide tuples of size `n`.
pub fn all_nuc_tuples(n: u16) -> (r: Vec<String>)
    ensures
        r.deep_view() == tuple_seq(n as nat, nuc_alphabet()),
{
    let mut nucs: Vec<String> = Vec::new();
    nucs.push(String::from_str("A"));
    nucs.push(String::from_str("C"));
    nucs.push(String::from_str("T"));
    nucs.push(String::from_str("G"));
    proof {
        reveal_strlit("A");
        reveal_strlit("C");
        reveal_strlit("T");
        reveal_strlit("G");
        assert("A"@ =~= seq!['A']);
        assert("C"@ =~= seq!['C']);
        assert("T"@ =~= seq!['T']);
        assert("G"@ =~= seq!['G']);
        assert(nucs.deep_view() =~= nuc_alphabet());
    }
    all_tuples(n, &nucs)
}

/// Convenient function, calls `all_nuc_tuples(3)`: all 64 codons.
pub fn all_codons() -> (r: Vec<String>)
    ensures
        r.deep_view() == tuple_seq(3, nuc_alphabet()),
{
    all_nuc_tuples(3)
}

/// For every alphabet and every tuple length `n >= 1`, the enumeration
/// holds exactly `|sigma| ^ n` tuples.
pub proof fn lemma_tuple_count(n: nat, sigma: Seq<Seq<char>>)
    requires
        n >= 1,
    ensures
        tuple_seq(n, sigma).len() == pow(sigma.len() as int, n),
    decreases n,
{
    if n == 1 {
        lemma_pow1(sigma.len() as int);
    } else {
        let k = sigma.len() as int;
        let prev = tuple_seq((n - 1) as nat, sigma);
        lemma_tuple_count((n - 1) as nat, sigma);
        assert(tuple_seq(n, sigma).len() == sigma.len() * prev.len());
        assert(pow(k, n) == k * pow(k, (n - 1) as nat)) by {
            reveal(pow);
        }
    }
}

/// For tuple length 1, the enumeration is the alphabet itself, in its
/// given order.
pub proof fn lemma_tuples_of_one(sigma: Seq<Seq<char>>)
    ensures
        tuple_seq(1, sigma) == sigma,
{
}

/// For tuple length 0, the enumeration is likewise the alphabet itself:
/// the zero case deliberately behaves as the one case, not as the single
/// empty tuple a purely combinatorial reading would give.
pub proof fn lemma_tuples_of_zero(sigma: Seq<Seq<char>>)
    ensures
        tuple_seq(0, sigma) == sigma,
{
}

/// When every symbol of the alphabet has the same character count `w`,
/// every tuple of the length-`n` enumeration, `n >= 1`, is made of exactly
/// `n` symbols: its character count is `n * w`.
pub proof fn lemma_tuple_symbol_count(n: nat, sigma: Seq<Seq<char>>, w: nat)
    requires
        n >= 1,
        forall|j: int| 0 <= j < sigma.len() ==> (#[trigger] sigma[j]).len() == w,
    ensures
        forall|i: int|
            #![trigger tuple_seq(n, sigma)[i]]
            0 <= i < tuple_seq(n, sigma).len() ==> tuple_seq(n, sigma)[i].len() == n * w,
    decreases n,
{
    if n == 1 {
        assert forall|i: int|
            0 <= i < tuple_seq(n, sigma).len() implies #[trigger] tuple_seq(n, sigma)[i].len() == n
            * w by {
            assert(1 * w == w) by (nonlinear_arith);
        }
    } else {
        lemma_tuple_symbol_count((n - 1) as nat, sigma, w);
        let prev = tuple_seq((n - 1) as nat, sigma);
        let p = prev.len() as int;
        assert forall|i: int|
            0 <= i < tuple_seq(n, sigma).len() implies #[trigger] tuple_seq(n, sigma)[i].len() == n
            * w by {
            assert(p > 0) by (nonlinear_arith)
                requires
                    0 <= i < sigma.len() * p,
            ;
            lemma_mod_pos_bound(i, p);
            lemma_multiply_divide_lt(i, p, sigma.len() as int);
            lemma_div_pos_is_pos(i, p);
            assert(tuple_seq(n, sigma)[i] == sigma[i / p] + prev[i % p]);
            assert(w + (n - 1) * w == n * w) by (nonlinear_arith);
        }
    }
}

/// Whether `t` is a concatenation of exactly `n` symbols of `sigma`
/// (for `n <= 1`: whether `t` is a symbol of `sigma` itself).
pub open spec fn is_symbol_concat(n: nat, sigma: Seq<Seq<char>>, t: Seq<char>) -> bool
    decreases n,
{
    if n <= 1 {
        sigma.contains(t)
    } else {
        exists|j: int, u: Seq<char>|
            0 <= j < sigma.len() && is_symbol_concat((n - 1) as nat, sigma, u) && t == sigma[j] + u
    }
}

/// Every tuple of the length-`n` enumeration, `n >= 1`, is a concatenation
/// of exactly `n` alphabet symbols, counted as symbols rather than as
/// characters.
pub proof fn lemma_tuple_is_n_symbols(n: nat, sigma: Seq<Seq<char>>, i: int)
    requires
        n >= 1,
        0 <= i < tuple_seq(n, sigma).len(),
    ensures
        is_symbol_concat(n, sigma, tuple_seq(n, sigma)[i]),
    decreases n,
{
    if n == 1 {
        assert(sigma[i] == tuple_seq(n, sigma)[i]);
        assert(sigma.contains(tuple_seq(n, sigma)[i]));
    } else {
        let prev = tuple_seq((n - 1) as nat, sigma);
        let p = prev.len() as int;
        assert(p > 0) by (nonlinear_arith)
            requires
                0 <= i < sigma.len() * p,
        ;
        lemma_mod_pos_bound(i, p);
        lemma_multiply_divide_lt(i, p, sigma.len() as int);
        lemma_div_pos_is_pos(i, p);
        lemma_tuple_is_n_symbols((n - 1) as nat, sigma, i % p);
        assert(tuple_seq(n, sigma)[i] == sigma[i / p] + prev[i % p]);
    }
}

/// Ordering law: for `n > 1`, tuple `i` of the length-`n` enumeration is
/// the alphabet symbol at index `i / p` followed by tuple `i % p` of the
/// enumeration one level down, `p` counting that level's tuples. The
/// alphabet position is thus the most significant digit, and that symbol
/// is a prefix of the tuple.
pub proof fn lemma_tuple_ordering(n: nat, sigma: Seq<Seq<char>>, i: int)
    requires
        n > 1,
        0 <= i < tuple_seq(n, sigma).len(),
    ensures
        ({
            let prev = tuple_seq((n - 1) as nat, sigma);
            let p = prev.len() as int;
            &&& tuple_seq(n, sigma)[i] == sigma[i / p] + prev[i % p]
            &&& sigma[i / p].is_prefix_of(tuple_seq(n, sigma)[i])
        }),
{
    let prev = tuple_seq((n - 1) as nat, sigma);
    let p = prev.len() as int;
    assert(p > 0) by (nonlinear_arith)
        requires
            0 <= i < sigma.len() * p,
    ;
    lemma_mod_pos_bound(i, p);
    lemma_multiply_divide_lt(i, p, sigma.len() as int);
    lemma_div_pos_is_pos(i, p);
    assert(sigma[i / p].is_prefix_of(sigma[i / p] + prev[i % p])) by {
        assert((sigma[i / p] + prev[i % p]).subrange(0, sigma[i / p].len() as int) =~= sigma[i
            / p]);
    }
}

/// Generating twice from the same tuple length and the same alphabet
/// yields the same sequence: the result is a function of the inputs alone.
pub proof fn lemma_generate_deterministic(
    n: nat,
    sigma: Seq<Seq<char>>,
    r1: Seq<Seq<char>>,
    r2: Seq<Seq<char>>,
)
    requires
        r1 == tuple_seq(n, sigma),
        r2 == tuple_seq(n, sigma),
    ensures
        r1 == r2,
{
}

} // verus!
