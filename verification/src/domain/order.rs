//! The order identifiers are listed in: character by character, a prefix
//! before anything it is a prefix of.

use vstd::prelude::*;

verus! {

/// Whether `a` and `b` first differ at `i`, `a` being the smaller there.
pub open spec fn less_at(a: Seq<char>, b: Seq<char>, i: int) -> bool {
    &&& 0 <= i <= a.len()
    &&& i <= b.len()
    &&& a.take(i) == b.take(i)
    &&& (i < a.len() && i < b.len() && (a[i] as u32) < (b[i] as u32)) || (i == a.len() && i < b.len())
}

/// `a` sorts strictly before `b`.
pub open spec fn text_lt(a: Seq<char>, b: Seq<char>) -> bool {
    exists|i: int| #[trigger] less_at(a, b, i)
}

/// Whether `a` sorts strictly before `b`.
pub fn text_less(a: &str, b: &str) -> (r: bool)
    ensures
        r == text_lt(a@, b@),
{
    let n = a.unicode_len();
    let m = b.unicode_len();
    let mut i: usize = 0;
    while i < n && i < m && a.get_char(i) == b.get_char(i)
        invariant
            n == a@.len(),
            m == b@.len(),
            i <= n,
            i <= m,
            a@.take(i as int) == b@.take(i as int),
        decreases n - i,
    {
        assert(a@.take(i + 1) =~= a@.take(i as int).push(a@[i as int]));
        assert(b@.take(i + 1) =~= b@.take(i as int).push(b@[i as int]));
        i = i + 1;
    }
    let r = if i < n && i < m {
        (a.get_char(i) as u32) < (b.get_char(i) as u32)
    } else {
        i == n && i < m
    };
    proof {
        if r {
            assert(less_at(a@, b@, i as int));
        } else if text_lt(a@, b@) {
            let j = choose|j: int| #[trigger] less_at(a@, b@, j);
            if j < i {
                assert(a@.take(i as int)[j] == b@.take(i as int)[j]);
            } else if j > i {
                assert(a@.take(j)[i as int] == b@.take(j)[i as int]);
            }
        }
    }
    r
}


/// No text sorts before itself.
pub proof fn lemma_text_lt_irreflexive(a: Seq<char>)
    ensures
        !text_lt(a, a),
{
    if text_lt(a, a) {
        let i = choose|i: int| #[trigger] less_at(a, a, i);
    }
}

/// Sorting before is transitive.
pub proof fn lemma_text_lt_transitive(a: Seq<char>, b: Seq<char>, c: Seq<char>)
    requires
        text_lt(a, b),
        text_lt(b, c),
    ensures
        text_lt(a, c),
{
    let i = choose|i: int| #[trigger] less_at(a, b, i);
    let j = choose|j: int| #[trigger] less_at(b, c, j);
    if i < j {
        assert(b.take(j).take(i) =~= b.take(i));
        assert(c.take(j).take(i) =~= c.take(i));
        assert(b.take(j)[i] == b[i]);
        assert(c.take(j)[i] == c[i]);
        assert(less_at(a, c, i));
    } else if j < i {
        assert(a.take(i).take(j) =~= a.take(j));
        assert(b.take(i).take(j) =~= b.take(j));
        assert(a.take(i)[j] == a[j]);
        assert(b.take(i)[j] == b[j]);
        assert(less_at(a, c, j));
    } else {
        assert(less_at(a, c, i));
    }
}

/// Two texts that agree up to `i` either are equal or one sorts first.
proof fn lemma_text_lt_total_from(a: Seq<char>, b: Seq<char>, i: int)
    requires
        0 <= i <= a.len(),
        i <= b.len(),
        a.take(i) == b.take(i),
    ensures
        a == b || text_lt(a, b) || text_lt(b, a),
    decreases a.len() - i,
{
    if i == a.len() && i == b.len() {
        assert(a =~= a.take(i));
        assert(b =~= b.take(i));
    } else if i == a.len() {
        assert(less_at(a, b, i));
    } else if i == b.len() {
        assert(less_at(b, a, i));
    } else if a[i] != b[i] {
        vstd::utf8::char_u32_cast(a[i], a[i] as u32);
        vstd::utf8::char_u32_cast(b[i], b[i] as u32);
        assert((a[i] as u32) != (b[i] as u32));
        if (a[i] as u32) < (b[i] as u32) {
            assert(less_at(a, b, i));
        } else {
            assert(less_at(b, a, i));
        }
    } else {
        assert(a.take(i + 1) =~= a.take(i).push(a[i]));
        assert(b.take(i + 1) =~= b.take(i).push(b[i]));
        lemma_text_lt_total_from(a, b, i + 1);
    }
}

/// Of two different texts, one sorts first.
pub proof fn lemma_text_lt_total(a: Seq<char>, b: Seq<char>)
    ensures
        a == b || text_lt(a, b) || text_lt(b, a),
{
    assert(a.take(0) =~= b.take(0));
    lemma_text_lt_total_from(a, b, 0);
}

} // verus!
