//! The order of texts.

use vstd::prelude::*;
use vstd::string::StrSliceExecFns;

verus! {

/// `a` and `b` agree in their first `n` characters, and there `a` ends or goes on with the
/// smaller character.
pub open spec fn parts_at(a: Seq<char>, b: Seq<char>, n: int) -> bool {
    &&& 0 <= n <= a.len()
    &&& n < b.len()
    &&& forall|k: int| 0 <= k < n ==> a[k] == b[k]
    &&& n == a.len() || (a[n] as u32) < (b[n] as u32)
}

/// `a` comes before `b` in the order of code points, which is also that of the UTF-8 bytes.
pub open spec fn text_before(a: Seq<char>, b: Seq<char>) -> bool {
    exists|n: int| parts_at(a, b, n)
}

/// Whether `a` comes before `b`.
pub fn is_text_before(a: &str, b: &str) -> (r: bool)
    ensures
        r == text_before(a@, b@),
{
    let (a_len, b_len): (usize, usize) = (a.unicode_len(), b.unicode_len());
    let mut i: usize = 0;
    while i < a_len && i < b_len
        invariant
            a_len == a@.len(),
            b_len == b@.len(),
            i <= a_len,
            i <= b_len,
            forall|k: int| 0 <= k < i ==> a@[k] == b@[k],
        decreases a_len - i,
    {
        let (x, y): (char, char) = (a.get_char(i), b.get_char(i));
        if x != y {
            let r = (x as u32) < (y as u32);
            proof {
                if r {
                    assert(parts_at(a@, b@, i as int));
                }
                assert forall|n: int| parts_at(a@, b@, n) implies r by {
                    assert(a@[i as int] == x && b@[i as int] == y);
                }
            }
            return r;
        }
        i += 1;
    }
    if i < b_len {
        assert(parts_at(a@, b@, i as int));
    }
    i < b_len
}

/// Nothing comes before the empty text, which comes before every other; where the first
/// characters differ, the smaller one decides, and where they agree, what follows them.
pub proof fn law_text_order(a: Seq<char>, b: Seq<char>)
    ensures
        b.len() == 0 ==> !text_before(a, b),
        a.len() == 0 && b.len() > 0 ==> text_before(a, b),
        a.len() > 0 && b.len() > 0 && a[0] != b[0] ==> (text_before(a, b) <==> (a[0] as u32) < (
        b[0] as u32)),
        a.len() > 0 && b.len() > 0 && a[0] == b[0] ==> (text_before(a, b) <==> text_before(
            a.skip(1),
            b.skip(1),
        )),
{
    if a.len() == 0 && b.len() > 0 {
        assert(parts_at(a, b, 0));
    }
    if a.len() > 0 && b.len() > 0 {
        if a[0] != b[0] {
            if (a[0] as u32) < (b[0] as u32) {
                assert(parts_at(a, b, 0));
            }
            assert forall|n: int| parts_at(a, b, n) implies n == 0 by {
                if n > 0 {
                    assert(a[0] == b[0]);
                }
            }
        } else {
            let (x, y) = (a.skip(1), b.skip(1));
            if text_before(a, b) {
                let n = choose|n: int| parts_at(a, b, n);
                assert forall|k: int| 0 <= k < n - 1 implies x[k] == y[k] by {
                    assert(a[k + 1] == b[k + 1]);
                }
                assert(parts_at(x, y, n - 1));
            }
            if text_before(x, y) {
                let n = choose|n: int| parts_at(x, y, n);
                assert forall|k: int| 0 <= k < n + 1 implies a[k] == b[k] by {
                    if k > 0 {
                        assert(x[k - 1] == y[k - 1]);
                    }
                }
                assert(parts_at(a, b, n + 1));
            }
        }
    }
}

/// Of two characters one is smaller.
proof fn lemma_one_is_smaller(x: char, y: char)
    requires
        x != y,
    ensures
        (x as u32) < (y as u32) || (y as u32) < (x as u32),
{
}

/// Of two texts one comes before the other, or they are the same.
pub proof fn law_text_order_is_total(a: Seq<char>, b: Seq<char>)
    ensures
        text_before(a, b) || text_before(b, a) || a == b,
        !(text_before(a, b) && text_before(b, a)),
        !text_before(a, a),
    decreases a.len(),
{
    law_text_order(a, b);
    law_text_order(b, a);
    law_text_order(a, a);
    if a.len() > 0 {
        if b.len() > 0 && a[0] == b[0] {
            law_text_order_is_total(a.skip(1), b.skip(1));
            if a.skip(1) == b.skip(1) {
                assert(a =~= seq![a[0]] + a.skip(1));
                assert(b =~= seq![b[0]] + b.skip(1));
                assert(a == b);
            }
        } else if b.len() > 0 {
            lemma_one_is_smaller(a[0], b[0]);
        }
        law_text_order_is_total(a.skip(1), a.skip(1));
    } else if b.len() == 0 {
        assert(a =~= b);
    }
}

} // verus!
