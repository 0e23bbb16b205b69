//! The order of identifiers: lexicographic by their UTF-8 bytes, which is the
//! order of their code points.

use vstd::prelude::*;
use vstd::string::StringSliceAdditionalSpecFns;
use vstd::utf8::encode_utf8;

verus! {

/// Lexicographic `a <= b` on bytes: the first byte that differs decides, and
/// a prefix comes before what it is a prefix of.
pub open spec fn lex_le(a: Seq<u8>, b: Seq<u8>) -> bool
    decreases a.len(),
{
    if a.len() == 0 {
        true
    } else if b.len() == 0 {
        false
    } else if a[0] != b[0] {
        a[0] < b[0]
    } else {
        lex_le(a.drop_first(), b.drop_first())
    }
}

/// `a <= b` for identifiers.
pub open spec fn name_le(a: Seq<char>, b: Seq<char>) -> bool {
    lex_le(encode_utf8(a), encode_utf8(b))
}

/// Whether each identifier of the list is `<=` the next.
pub open spec fn ordered(names: Seq<Seq<char>>) -> bool {
    forall|i: int, j: int| 0 <= i < j < names.len() ==> name_le(#[trigger] names[i], #[trigger] names[j])
}

/// The list with `name` entered behind the last identifier that is `<=` it,
/// counted from the front while the identifiers stay `<=` it.
pub open spec fn insert_sorted(names: Seq<Seq<char>>, name: Seq<char>) -> Seq<Seq<char>>
    decreases names.len(),
{
    if names.len() == 0 {
        seq![name]
    } else if name_le(names[0], name) {
        seq![names[0]] + insert_sorted(names.drop_first(), name)
    } else {
        seq![name] + names
    }
}

/// What a list of strings reads as.
pub open spec fn texts(names: Seq<String>) -> Seq<Seq<char>> {
    names.map_values(|s: String| s@)
}

/// Every byte string is `<=` itself.
pub proof fn lemma_lex_le_reflexive(a: Seq<u8>)
    ensures
        lex_le(a, a),
    decreases a.len(),
{
    if a.len() > 0 {
        lemma_lex_le_reflexive(a.drop_first());
    }
}

/// Of two byte strings one is `<=` the other.
pub proof fn lemma_lex_le_total(a: Seq<u8>, b: Seq<u8>)
    ensures
        lex_le(a, b) || lex_le(b, a),
    decreases a.len(),
{
    if a.len() > 0 && b.len() > 0 && a[0] == b[0] {
        lemma_lex_le_total(a.drop_first(), b.drop_first());
    }
}

/// What is `<=` something that is `<=` a third is `<=` the third.
pub proof fn lemma_lex_le_transitive(a: Seq<u8>, b: Seq<u8>, c: Seq<u8>)
    requires
        lex_le(a, b),
        lex_le(b, c),
    ensures
        lex_le(a, c),
    decreases a.len(),
{
    if a.len() > 0 && b.len() > 0 && c.len() > 0 {
        if a[0] == b[0] && b[0] == c[0] {
            lemma_lex_le_transitive(a.drop_first(), b.drop_first(), c.drop_first());
        }
    }
}

/// Two byte strings that are each `<=` the other are the same.
pub proof fn lemma_lex_le_antisymmetric(a: Seq<u8>, b: Seq<u8>)
    requires
        lex_le(a, b),
        lex_le(b, a),
    ensures
        a == b,
    decreases a.len(),
{
    if a.len() > 0 && b.len() > 0 {
        lemma_lex_le_antisymmetric(a.drop_first(), b.drop_first());
        assert(a =~= seq![a[0]] + a.drop_first());
        assert(b =~= seq![b[0]] + b.drop_first());
    } else {
        assert(a =~= b);
    }
}

proof fn lemma_lex_le_skips_common_prefix(a: Seq<u8>, b: Seq<u8>, i: int)
    requires
        0 <= i <= a.len(),
        i <= b.len(),
        forall|j: int| 0 <= j < i ==> a[j] == b[j],
    ensures
        lex_le(a, b) == lex_le(a.skip(i), b.skip(i)),
    decreases i,
{
    if i > 0 {
        lemma_lex_le_skips_common_prefix(a, b, i - 1);
        let x = a.skip(i - 1);
        let y = b.skip(i - 1);
        assert(x[0] == a[i - 1]);
        assert(y[0] == b[i - 1]);
        assert(x.drop_first() =~= a.skip(i));
        assert(y.drop_first() =~= b.skip(i));
    } else {
        assert(a.skip(0) =~= a);
        assert(b.skip(0) =~= b);
    }
}

/// Decides `a <= b` for two identifiers.
pub fn is_name_le(a: &str, b: &str) -> (r: bool)
    ensures
        r == name_le(a@, b@),
{
    let x = a.as_bytes();
    let y = b.as_bytes();
    let mut i: usize = 0;
    while i < x.len() && i < y.len()
        invariant
            i <= x.len(),
            i <= y.len(),
            x@ == encode_utf8(a@),
            y@ == encode_utf8(b@),
            forall|j: int| 0 <= j < i ==> x@[j] == y@[j],
        decreases x.len() - i,
    {
        if x[i] != y[i] {
            proof {
                lemma_lex_le_skips_common_prefix(x@, y@, i as int);
                assert(x@.skip(i as int)[0] == x@[i as int]);
                assert(y@.skip(i as int)[0] == y@[i as int]);
            }
            return x[i] < y[i];
        }
        i += 1;
    }
    proof {
        lemma_lex_le_skips_common_prefix(x@, y@, i as int);
    }
    x.len() <= y.len()
}

/// Where `name` goes: behind the identifiers before `pos`, all `<=` it, and
/// before the one at `pos`, which is not.
proof fn lemma_insert_sorted_at(names: Seq<Seq<char>>, name: Seq<char>, pos: int)
    requires
        0 <= pos <= names.len(),
        forall|j: int| 0 <= j < pos ==> name_le(#[trigger] names[j], name),
        pos < names.len() ==> !name_le(names[pos], name),
    ensures
        insert_sorted(names, name) == names.insert(pos, name),
    decreases names.len(),
{
    if names.len() == 0 {
        assert(names.insert(0, name) =~= seq![name]);
    } else if pos == 0 {
        assert(names.insert(0, name) =~= seq![name] + names);
    } else {
        let rest = names.drop_first();
        assert forall|j: int| 0 <= j < pos - 1 implies name_le(#[trigger] rest[j], name) by {
            assert(rest[j] == names[j + 1]);
        }
        lemma_insert_sorted_at(rest, name, pos - 1);
        assert(names.insert(pos, name) =~= seq![names[0]] + rest.insert(pos - 1, name));
    }
}

/// Enters `name` into the list at its place: see [`insert_sorted`].
pub fn insert_name(names: &mut Vec<String>, name: String)
    ensures
        texts(final(names)@) == insert_sorted(texts(old(names)@), name@),
{
    let mut pos: usize = 0;
    while pos < names.len() && is_name_le(names[pos].as_str(), name.as_str())
        invariant
            pos <= names.len(),
            names@ == old(names)@,
            forall|j: int| 0 <= j < pos ==> name_le(#[trigger] texts(names@)[j], name@),
        decreases names.len() - pos,
    {
        pos += 1;
    }
    proof {
        lemma_insert_sorted_at(texts(names@), name@, pos as int);
    }
    names.insert(pos, name);
    assert(texts(names@) =~= texts(old(names)@).insert(pos as int, name@));
}

/// Entering an identifier into an ordered list leaves it ordered, one longer,
/// and with the same identifiers and the new one.
pub proof fn lemma_insert_sorted_keeps_order(names: Seq<Seq<char>>, name: Seq<char>)
    requires
        ordered(names),
    ensures
        ordered(insert_sorted(names, name)),
        insert_sorted(names, name).len() == names.len() + 1,
        insert_sorted(names, name).to_multiset() == names.to_multiset().insert(name),
    decreases names.len(),
{
    broadcast use vstd::seq_lib::group_to_multiset_ensures;

    let out = insert_sorted(names, name);
    if names.len() == 0 {
        assert(out =~= Seq::<Seq<char>>::empty().push(name));
        assert(names =~= Seq::<Seq<char>>::empty());
    } else if name_le(names[0], name) {
        let rest = names.drop_first();
        assert forall|i: int, j: int| 0 <= i < j < rest.len() implies name_le(
            #[trigger] rest[i],
            #[trigger] rest[j],
        ) by {
            assert(rest[i] == names[i + 1]);
            assert(rest[j] == names[j + 1]);
        }
        lemma_insert_sorted_keeps_order(rest, name);
        let tail = insert_sorted(rest, name);
        assert(out =~= seq![names[0]] + tail);
        assert forall|i: int, j: int| 0 <= i < j < out.len() implies name_le(
            #[trigger] out[i],
            #[trigger] out[j],
        ) by {
            if i == 0 {
                let t = out[j];
                assert(t == tail[j - 1]);
                assert(tail.to_multiset().count(t) > 0);
                assert(rest.to_multiset().insert(name).count(t) > 0);
                if t != name {
                    assert(rest.to_multiset().count(t) > 0);
                    assert(rest.contains(t));
                    let k = choose|k: int| 0 <= k < rest.len() && rest[k] == t;
                    assert(names[k + 1] == t);
                }
            } else {
                assert(out[i] == tail[i - 1]);
                assert(out[j] == tail[j - 1]);
            }
        }
        assert(names =~= seq![names[0]] + rest);
        assert(out.to_multiset() =~= names.to_multiset().insert(name)) by {
            vstd::seq_lib::lemma_multiset_commutative(seq![names[0]], tail);
            vstd::seq_lib::lemma_multiset_commutative(seq![names[0]], rest);
        }
    } else {
        assert(out =~= seq![name] + names);
        assert forall|i: int, j: int| 0 <= i < j < out.len() implies name_le(
            #[trigger] out[i],
            #[trigger] out[j],
        ) by {
            if i == 0 {
                lemma_lex_le_total(encode_utf8(names[0]), encode_utf8(name));
                assert(out[j] == names[j - 1]);
                if j - 1 > 0 {
                    lemma_lex_le_transitive(
                        encode_utf8(name),
                        encode_utf8(names[0]),
                        encode_utf8(names[j - 1]),
                    );
                }
            } else {
                assert(out[i] == names[i - 1]);
                assert(out[j] == names[j - 1]);
            }
        }
        assert(out.to_multiset() =~= names.to_multiset().insert(name)) by {
            vstd::seq_lib::lemma_multiset_commutative(seq![name], names);
        }
    }
}

} // verus!
