//! Lexicographic order on names, and a sort that respects it.

use vstd::prelude::*;
use vstd::multiset::Multiset;
use vstd::string::StrSliceExecFns;

verus! {

/// `a` reads at or before `b`: at the first differing position `a` holds
/// the smaller character code, or `a` is a prefix of `b`.
pub open spec fn lex_le(a: Seq<char>, b: Seq<char>) -> bool
    decreases a.len(),
{
    if a.len() == 0 {
        true
    } else if b.len() == 0 {
        false
    } else if a[0] == b[0] {
        lex_le(a.skip(1), b.skip(1))
    } else {
        (a[0] as u32) < (b[0] as u32)
    }
}

/// The order is total.
pub proof fn lemma_lex_total(a: Seq<char>, b: Seq<char>)
    ensures
        lex_le(a, b) || lex_le(b, a),
    decreases a.len(),
{
    if a.len() == 0 {
    } else if b.len() == 0 {
    } else if a[0] == b[0] {
        lemma_lex_total(a.skip(1), b.skip(1));
    } else {
        assert((a[0] as u32) != (b[0] as u32)) by {
            vstd::utf8::char_u32_cast(a[0], a[0] as u32);
            vstd::utf8::char_u32_cast(b[0], b[0] as u32);
        }
    }
}

/// The order is transitive.
pub proof fn lemma_lex_transitive(a: Seq<char>, b: Seq<char>, c: Seq<char>)
    requires
        lex_le(a, b),
        lex_le(b, c),
    ensures
        lex_le(a, c),
    decreases a.len(),
{
    if a.len() > 0 && b.len() > 0 && c.len() > 0 && a[0] == b[0] && b[0] == c[0] {
        lemma_lex_transitive(a.skip(1), b.skip(1), c.skip(1));
    }
}

/// Dropping one equal head keeps the comparison.
proof fn lemma_lex_step(a: Seq<char>, b: Seq<char>)
    requires
        a.len() > 0,
        b.len() > 0,
        a[0] == b[0],
    ensures
        lex_le(a, b) == lex_le(a.skip(1), b.skip(1)),
{
}

/// Whether `a` reads at or before `b`.
pub fn str_le(a: &str, b: &str) -> (r: bool)
    ensures
        r == lex_le(a@, b@),
{
    let alen = a.unicode_len();
    let blen = b.unicode_len();
    let mut i: usize = 0;
    proof {
        assert(a@.skip(0) =~= a@);
        assert(b@.skip(0) =~= b@);
    }
    while i < alen && i < blen
        invariant
            alen == a@.len(),
            blen == b@.len(),
            i <= alen,
            i <= blen,
            lex_le(a@, b@) == lex_le(a@.skip(i as int), b@.skip(i as int)),
        decreases alen - i,
    {
        let ca = a.get_char(i);
        let cb = b.get_char(i);
        if (ca as u32) != (cb as u32) {
            proof {
                assert(a@.skip(i as int)[0] == ca && b@.skip(i as int)[0] == cb);
            }
            return (ca as u32) < (cb as u32);
        }
        proof {
            assert(a@.skip(i as int)[0] == ca && b@.skip(i as int)[0] == cb);
            assert(ca == cb) by {
                vstd::utf8::char_u32_cast(ca, ca as u32);
                vstd::utf8::char_u32_cast(cb, cb as u32);
            }
            lemma_lex_step(a@.skip(i as int), b@.skip(i as int));
            assert(a@.skip(i as int).skip(1) =~= a@.skip(i as int + 1));
            assert(b@.skip(i as int).skip(1) =~= b@.skip(i as int + 1));
        }
        i = i + 1;
    }
    proof {
        if alen <= blen {
            assert(a@.skip(i as int).len() == 0);
        } else {
            assert(b@.skip(i as int).len() == 0);
            assert(a@.skip(i as int).len() > 0);
        }
    }
    alen <= blen
}

/// The names read in order, each at or before the next.
pub open spec fn sorted_names(v: Seq<Seq<char>>) -> bool {
    forall|i: int, j: int| 0 <= i < j < v.len() ==> lex_le(#[trigger] v[i], #[trigger] v[j])
}

/// Inserting one element adds exactly it to the bag of a sequence.
proof fn lemma_insert_to_multiset(v: Seq<String>, j: int, x: String)
    requires
        0 <= j <= v.len(),
    ensures
        v.insert(j, x).to_multiset() == v.to_multiset().insert(x),
{
    broadcast use vstd::seq_lib::group_seq_properties;

    let w = v.insert(j, x);
    assert(w =~= v.take(j) + seq![x] + v.skip(j));
    vstd::seq_lib::lemma_multiset_commutative(v.take(j) + seq![x], v.skip(j));
    vstd::seq_lib::lemma_multiset_commutative(v.take(j), seq![x]);
    assert(seq![x].to_multiset() =~= Multiset::<String>::empty().insert(x)) by {
        assert(seq![x] =~= Seq::<String>::empty().push(x));
        Seq::<String>::empty().to_multiset_ensures();
    }
    assert(v =~= v.take(j) + v.skip(j));
    vstd::seq_lib::lemma_multiset_commutative(v.take(j), v.skip(j));
    assert(w.to_multiset() =~= v.to_multiset().insert(x));
}

/// Sorts names ascending; the result holds exactly the given names.
pub fn sort_names(input: Vec<String>) -> (r: Vec<String>)
    ensures
        sorted_names(r@.map_values(|s: String| s@)),
        r@.to_multiset() == input@.to_multiset(),
{
    let mut out: Vec<String> = Vec::new();
    let mut i: usize = 0;
    proof {
        assert(input@.take(0) =~= Seq::<String>::empty());
        Seq::<String>::empty().to_multiset_ensures();
    }
    while i < input.len()
        invariant
            i <= input@.len(),
            sorted_names(out@.map_values(|s: String| s@)),
            out@.to_multiset() == input@.take(i as int).to_multiset(),
        decreases input@.len() - i,
    {
        let s = input[i].clone();
        let mut j: usize = 0;
        while j < out.len() && str_le(out[j].as_str(), s.as_str())
            invariant
                j <= out@.len(),
                forall|k: int| 0 <= k < j ==> lex_le(#[trigger] out@[k]@, s@),
            decreases out@.len() - j,
        {
            j = j + 1;
        }
        proof {
            if j < out@.len() {
                lemma_lex_total(out@[j as int]@, s@);
                assert(lex_le(s@, out@[j as int]@));
            }
        }
        let ghost out0 = out@;
        out.insert(j, s);
        proof {
            let names = out@.map_values(|t: String| t@);
            let names0 = out0.map_values(|t: String| t@);
            assert(out@ == out0.insert(j as int, s));
            assert forall|x: int, y: int| 0 <= x < y < names.len() implies lex_le(
                #[trigger] names[x],
                #[trigger] names[y],
            ) by {
                let jj = j as int;
                if x < jj && y == jj {
                    assert(names[x] == names0[x] && names[y] == s@);
                } else if x == jj && y > jj {
                    assert(names[x] == s@ && names[y] == names0[y - 1]);
                    assert(lex_le(s@, names0[jj]));
                    if y - 1 > jj {
                        assert(lex_le(names0[jj], names0[y - 1]));
                        lemma_lex_transitive(s@, names0[jj], names0[y - 1]);
                    }
                } else if x < jj && y > jj {
                    assert(names[x] == names0[x] && names[y] == names0[y - 1]);
                    if y - 1 == x {
                        assert(lex_le(names0[x], s@) && lex_le(s@, names0[x]));
                    } else {
                        assert(lex_le(names0[x], names0[y - 1]));
                    }
                } else if x > jj {
                    assert(names[x] == names0[x - 1] && names[y] == names0[y - 1]);
                } else if y < jj {
                    assert(names[x] == names0[x] && names[y] == names0[y]);
                }
            }
            lemma_insert_to_multiset(out0, j as int, s);
            assert(input@.take(i as int + 1) =~= input@.take(i as int).push(input@[i as int]));
            input@.take(i as int).to_multiset_ensures();
            assert(out@.to_multiset() == input@.take(i as int + 1).to_multiset());
        }
        i = i + 1;
    }
    proof {
        assert(input@.take(input@.len() as int) =~= input@);
    }
    out
}

} // verus!
