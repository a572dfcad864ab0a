use vstd::prelude::*;
use vstd::string::StrSliceExecFns;
use crate::registry::{all, spec_all, Algorithm, Width};

verus! {

/// An algorithm's routine for one width.
#[derive(Clone, Copy, PartialEq, Eq, Structural, Debug)]
pub enum Type {
    U32(Algorithm),
    U64(Algorithm),
    U128(Algorithm),
}

impl Type {
    pub open spec fn spec_of(a: Algorithm, w: Width) -> Type {
        match w {
            Width::U32 => Type::U32(a),
            Width::U64 => Type::U64(a),
            Width::U128 => Type::U128(a),
        }
    }

    pub fn of(a: Algorithm, w: Width) -> (r: Type)
        ensures
            r == Type::spec_of(a, w),
    {
        match w {
            Width::U32 => Type::U32(a),
            Width::U64 => Type::U64(a),
            Width::U128 => Type::U128(a),
        }
    }
}

/// What to run: the selected algorithm routines with their names, and whether the
/// datasets mix digit lengths.
pub struct Args {
    pub benchmark: Vec<(&'static str, Type)>,
    pub unpredictable: bool,
}

/// A selection token that names no algorithm, or a width the algorithm lacks.
pub struct Unsupported {
    pub token: String,
}

/// The flag that turns on mixed digit lengths.
pub open spec fn unpredictable_flag() -> Seq<char> {
    "--unpredictable"@
}

/// `i` is where `t` has its first `':'`, or its length where it has none.
pub open spec fn is_first_colon(t: Seq<char>, i: int) -> bool {
    &&& 0 <= i <= t.len()
    &&& (i == t.len() || t[i] == ':')
    &&& forall|j: int| 0 <= j < i ==> t[j] != ':'
}

pub open spec fn first_colon(t: Seq<char>) -> int {
    choose|i: int| is_first_colon(t, i)
}

/// The first algorithm of `algs` with the name `s`.
pub open spec fn find_named(algs: Seq<Algorithm>, s: Seq<char>) -> Option<Algorithm>
    decreases algs.len(),
{
    if algs.len() == 0 {
        None
    } else if algs[0].spec_name() == s {
        Some(algs[0])
    } else {
        find_named(algs.drop_first(), s)
    }
}

pub open spec fn width_named(s: Seq<char>) -> Option<Width> {
    if s == Width::U32.spec_name() {
        Some(Width::U32)
    } else if s == Width::U64.spec_name() {
        Some(Width::U64)
    } else if s == Width::U128.spec_name() {
        Some(Width::U128)
    } else {
        None
    }
}

/// The routines of `a`, in the order 32, 64, 128 bits, where it has them.
pub open spec fn widths_of(a: Algorithm) -> Seq<(Algorithm, Width)> {
    (if a.spec_supports(Width::U32) {
        seq![(a, Width::U32)]
    } else {
        Seq::empty()
    }) + (if a.spec_supports(Width::U64) {
        seq![(a, Width::U64)]
    } else {
        Seq::empty()
    }) + (if a.spec_supports(Width::U128) {
        seq![(a, Width::U128)]
    } else {
        Seq::empty()
    })
}

/// What a token `algorithm` or `algorithm:width` selects, or nothing where it is
/// not supported.
pub open spec fn token_entries(t: Seq<char>) -> Option<Seq<(Algorithm, Width)>> {
    let i = first_colon(t);
    match find_named(spec_all(), t.subrange(0, i)) {
        None => None,
        Some(a) => if i == t.len() {
            Some(widths_of(a))
        } else {
            match width_named(t.subrange(i + 1, t.len() as int)) {
                Some(w) => if a.spec_supports(w) {
                    Some(seq![(a, w)])
                } else {
                    None
                },
                None => None,
            }
        },
    }
}

/// The selection that the first `n` tokens make, with the flag, or the first
/// token that is not supported.
pub open spec fn parse_prefix(tokens: Seq<Seq<char>>, n: nat) -> Result<
    (Seq<(Algorithm, Width)>, bool),
    Seq<char>,
>
    decreases n,
{
    if n == 0 {
        Ok((Seq::empty(), false))
    } else {
        match parse_prefix(tokens, (n - 1) as nat) {
            Err(e) => Err(e),
            Ok((es, u)) => if tokens[n - 1] == unpredictable_flag() {
                Ok((es, true))
            } else {
                match token_entries(tokens[n - 1]) {
                    None => Err(tokens[n - 1]),
                    Some(x) => Ok((es + x, u)),
                }
            },
        }
    }
}

/// Once a token is refused, so is every longer run of tokens, with that token.
proof fn lemma_prefix_err(tokens: Seq<Seq<char>>, i: nat, n: nat)
    requires
        i <= n,
        parse_prefix(tokens, i) is Err,
    ensures
        parse_prefix(tokens, n) == parse_prefix(tokens, i),
    decreases n,
{
    if i < n {
        lemma_prefix_err(tokens, i, (n - 1) as nat);
    }
}

/// Every routine of every algorithm, in registration order.
pub open spec fn all_entries(algs: Seq<Algorithm>) -> Seq<(Algorithm, Width)>
    decreases algs.len(),
{
    if algs.len() == 0 {
        Seq::empty()
    } else {
        all_entries(algs.drop_last()) + widths_of(algs.last())
    }
}

/// The algorithm and width a benchmark entry stands for.
pub open spec fn entry_view(e: (&'static str, Type)) -> (Algorithm, Width) {
    match e.1 {
        Type::U32(a) => (a, Width::U32),
        Type::U64(a) => (a, Width::U64),
        Type::U128(a) => (a, Width::U128),
    }
}

pub open spec fn entries_view(b: Seq<(&'static str, Type)>) -> Seq<(Algorithm, Width)> {
    b.map_values(|e: (&'static str, Type)| entry_view(e))
}

/// Each entry carries its algorithm's name.
pub open spec fn names_match(b: Seq<(&'static str, Type)>) -> bool {
    forall|i: int| 0 <= i < b.len() ==> (#[trigger] b[i]).0@ == entry_view(b[i]).0.spec_name()
}

/// Appends the routine of `a` for `w` with its name.
fn push_entry(benchmark: &mut Vec<(&'static str, Type)>, a: Algorithm, w: Width)
    requires
        names_match(old(benchmark)@),
    ensures
        names_match(final(benchmark)@),
        entries_view(final(benchmark)@) == entries_view(old(benchmark)@).push((a, w)),
{
    let ghost before = benchmark@;
    benchmark.push((a.name(), Type::of(a, w)));
    assert(entries_view(benchmark@) =~= entries_view(before).push((a, w)));
}

/// Appends every routine that `a` has.
fn push_widths(benchmark: &mut Vec<(&'static str, Type)>, a: Algorithm)
    requires
        names_match(old(benchmark)@),
    ensures
        names_match(final(benchmark)@),
        entries_view(final(benchmark)@) == entries_view(old(benchmark)@) + widths_of(a),
{
    let ghost start = entries_view(benchmark@);
    if a.supports(Width::U32) {
        push_entry(benchmark, a, Width::U32);
    }
    if a.supports(Width::U64) {
        push_entry(benchmark, a, Width::U64);
    }
    if a.supports(Width::U128) {
        push_entry(benchmark, a, Width::U128);
    }
    assert(entries_view(benchmark@) =~= start + widths_of(a));
}

/// Where the first `':'` of `t` is, or its length.
fn find_colon(t: &str) -> (r: usize)
    ensures
        is_first_colon(t@, r as int),
{
    let n = t.unicode_len();
    let mut i: usize = 0;
    while i < n
        invariant
            n == t@.len(),
            i <= n,
            forall|j: int| 0 <= j < i ==> t@[j] != ':',
        decreases n - i,
    {
        if t.get_char(i) == ':' {
            return i;
        }
        i += 1;
    }
    i
}

proof fn lemma_first_colon(t: Seq<char>, i: int)
    requires
        is_first_colon(t, i),
    ensures
        first_colon(t) == i,
{
    let k = first_colon(t);
    assert(is_first_colon(t, k));
    if k < i {
        assert(t[k] == ':');
    } else if i < k {
        assert(t[i] == ':');
    }
}

/// The first registered algorithm named `lib`.
fn find_algorithm(lib: &str) -> (r: Option<Algorithm>)
    ensures
        r == find_named(spec_all(), lib@),
{
    let algs = all();
    let name = lib.to_owned();
    let mut k: usize = 0;
    assert(algs@.skip(0) =~= algs@);
    while k < algs.len()
        invariant
            algs@ == spec_all(),
            k <= algs@.len(),
            name@ == lib@,
            find_named(spec_all(), lib@) == find_named(algs@.skip(k as int), lib@),
        decreases algs@.len() - k,
    {
        let a = algs[k];
        proof {
            assert(algs@.skip(k as int).drop_first() =~= algs@.skip(k + 1));
        }
        if a.name().to_owned() == name {
            return Some(a);
        }
        k += 1;
    }
    None
}

/// The width named `ty`.
fn find_width(ty: &str) -> (r: Option<Width>)
    ensures
        r == width_named(ty@),
{
    let s = ty.to_owned();
    if s == Width::U32.name().to_owned() {
        Some(Width::U32)
    } else if s == Width::U64.name().to_owned() {
        Some(Width::U64)
    } else if s == Width::U128.name().to_owned() {
        Some(Width::U128)
    } else {
        None
    }
}

/// Appends what the token selects, or says that it selects nothing.
fn select(benchmark: &mut Vec<(&'static str, Type)>, t: &str) -> (ok: bool)
    requires
        names_match(old(benchmark)@),
    ensures
        names_match(final(benchmark)@),
        ok == token_entries(t@) is Some,
        ok ==> entries_view(final(benchmark)@) == entries_view(old(benchmark)@) + token_entries(t@)->0,
{
    let i = find_colon(t);
    proof {
        lemma_first_colon(t@, i as int);
    }
    let n = t.unicode_len();
    let lib = t.substring_char(0, i);
    match find_algorithm(lib) {
        None => false,
        Some(a) => {
            if i == n {
                push_widths(benchmark, a);
                true
            } else {
                let ty = t.substring_char(i + 1, n);
                match find_width(ty) {
                    Some(w) => {
                        if a.supports(w) {
                            let ghost before = entries_view(benchmark@);
                            push_entry(benchmark, a, w);
                            assert(before.push((a, w)) =~= before + seq![(a, w)]);
                            true
                        } else {
                            false
                        }
                    },
                    None => false,
                }
            }
        },
    }
}

/// Reads the selection tokens that follow the program name: `--unpredictable`
/// sets the flag; `algorithm` selects every routine of the algorithm and
/// `algorithm:width` one of them; no selection at all selects every routine of
/// every algorithm. The first token that selects nothing is the error.
pub fn parse(tokens: &Vec<String>) -> (r: Result<Args, Unsupported>)
    ensures
        match parse_prefix(tokens@.map_values(|s: String| s@), tokens@.len()) {
            Err(t) => r matches Err(e) && e.token@ == t,
            Ok((es, u)) => r matches Ok(args) && args.unpredictable == u && names_match(args.benchmark@)
                && entries_view(args.benchmark@) == (if es.len() == 0 {
                    all_entries(spec_all())
                } else {
                    es
                }),
        },
{
    let ghost views = tokens@.map_values(|s: String| s@);
    let flag = "--unpredictable".to_owned();
    let mut benchmark: Vec<(&'static str, Type)> = Vec::new();
    let mut unpredictable = false;
    let mut i: usize = 0;
    assert(entries_view(benchmark@) =~= Seq::empty());
    while i < tokens.len()
        invariant
            i <= tokens@.len(),
            views == tokens@.map_values(|s: String| s@),
            flag@ == unpredictable_flag(),
            names_match(benchmark@),
            parse_prefix(views, i as nat) == Ok::<(Seq<(Algorithm, Width)>, bool), Seq<char>>(
                (entries_view(benchmark@), unpredictable),
            ),
        decreases tokens@.len() - i,
    {
        let t = &tokens[i];
        assert(views[i as int] == t@);
        if *t == flag {
            unpredictable = true;
        } else {
            if !select(&mut benchmark, t.as_str()) {
                let token = t.clone();
                proof {
                    lemma_prefix_err(views, (i + 1) as nat, tokens@.len());
                }
                return Err(Unsupported { token });
            }
        }
        i += 1;
    }
    if benchmark.len() == 0 {
        let algs = all();
        let mut k: usize = 0;
        while k < algs.len()
            invariant
                algs@ == spec_all(),
                k <= algs@.len(),
                names_match(benchmark@),
                entries_view(benchmark@) == all_entries(algs@.take(k as int)),
            decreases algs@.len() - k,
        {
            let ghost prev = algs@.take(k as int);
            push_widths(&mut benchmark, algs[k]);
            proof {
                assert(algs@.take(k + 1).drop_last() =~= prev);
            }
            k += 1;
        }
        assert(algs@.take(algs@.len() as int) =~= spec_all());
    }
    Ok(Args { benchmark, unpredictable })
}

} // verus!
