use vstd::prelude::*;

verus! {

/// Whether `b` is an ASCII uppercase letter.
pub open spec fn is_ascii_upper(b: u8) -> bool {
    65 <= b <= 90
}

/// `b` with an ASCII lowercase letter folded to uppercase.
pub open spec fn ascii_upper(b: u8) -> u8 {
    if 97 <= b <= 122 {
        (b - 32) as u8
    } else {
        b
    }
}

/// An UpperCamelCase name in SCREAMING_SNAKE_CASE: every letter uppercased,
/// with an underscore before each uppercase letter except a leading one.
pub open spec fn snake_of(s: Seq<u8>) -> Seq<u8>
    decreases s.len(),
{
    if s.len() == 0 {
        Seq::empty()
    } else if s.len() > 1 && is_ascii_upper(s.last()) {
        snake_of(s.drop_last()) + seq![95u8, s.last()]
    } else {
        snake_of(s.drop_last()) + seq![ascii_upper(s.last())]
    }
}

/// The identifier to use for a font metric: its UpperCamelCase name turned
/// into SCREAMING_SNAKE_CASE, byte-wise over ASCII.
pub fn metric_identifier(name: &Vec<u8>) -> (r: Vec<u8>)
    requires
        name@.len() * 2 <= usize::MAX,
    ensures
        r@ == snake_of(name@),
{
    let mut out: Vec<u8> = Vec::new();
    let mut i: usize = 0;
    while i < name.len()
        invariant
            0 <= i <= name@.len(),
            name@.len() * 2 <= usize::MAX,
            out@ == snake_of(name@.take(i as int)),
            out@.len() <= 2 * i,
        decreases name@.len() - i,
    {
        let b = name[i];
        proof {
            assert(name@.take(i + 1).drop_last() =~= name@.take(i as int));
            assert(name@.take(i + 1).last() == name@[i as int]);
        }
        if i > 0 && b >= 65 && b <= 90 {
            out.push(95);
            out.push(b);
        } else {
            if b >= 97 && b <= 122 {
                out.push(b - 32);
            } else {
                out.push(b);
            }
        }
        proof {
            assert(out@ =~= snake_of(name@.take(i + 1)));
        }
        i = i + 1;
    }
    proof {
        assert(name@.take(name@.len() as int) =~= name@);
    }
    out
}

} // verus!
