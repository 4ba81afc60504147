//! Validation of the base64 payload of a signature section.
use vstd::prelude::*;
use crate::chars::{base64_digit, base64_value};

verus! {

/// The bytes `ENDSEC`.
pub open spec fn endsec() -> Seq<u8> {
    seq![0x45u8, 0x4e, 0x44, 0x53, 0x45, 0x43]
}

/// `c` without its trailing `=` padding.
pub open spec fn trim_padding(c: Seq<u8>) -> Seq<u8>
    decreases c.len(),
{
    if c.len() > 0 && c.last() == 0x3d {
        trim_padding(c.drop_last())
    } else {
        c
    }
}

/// Canonical base64: whole quanta, at most two `=` only at the end, and zero
/// padding bits in the last digit.
pub open spec fn base64_ok(c: Seq<u8>) -> bool {
    let data = trim_padding(c);
    let padding = c.len() - data.len();
    &&& c.len() > 0
    &&& c.len() % 4 == 0
    &&& padding <= 2
    &&& forall|i: int| 0 <= i < data.len() ==> #[trigger] data[i] != 0x3d
    &&& (padding == 1 ==> data.len() > 0 && base64_value(data.last()) is Some && base64_value(
        data.last(),
    )->0 & 3 == 0)
    &&& (padding == 2 ==> data.len() > 0 && base64_value(data.last()) is Some && base64_value(
        data.last(),
    )->0 & 15 == 0)
}

/// The signature payload (spaces removed) is base64 content followed by `ENDSEC`.
pub open spec fn signature_payload_ok(p: Seq<u8>) -> bool {
    p.len() >= 6 && p.skip(p.len() - 6) == endsec() && base64_ok(p.take(p.len() - 6))
}

proof fn lemma_trim_padding(c: Seq<u8>, k: int)
    requires
        0 <= k <= c.len(),
        forall|i: int| k <= i < c.len() ==> c[i] == 0x3d,
        k == 0 || c[k - 1] != 0x3d,
    ensures
        trim_padding(c) == c.take(k),
    decreases c.len(),
{
    if c.len() > k {
        lemma_trim_padding(c.drop_last(), k);
        assert(c.drop_last().take(k) =~= c.take(k));
    } else {
        assert(c.take(k) =~= c);
    }
}

/// Length of the base64 content of a signature payload, or a reason for rejection.
pub fn signature_content(p: &[u8]) -> (r: Result<usize, &'static str>)
    requires
        forall|i: int| 0 <= i < p@.len() ==> #[trigger] p@[i] == 0x3d || base64_value(p@[i]) is Some || (0x41 <= p@[i] <= 0x5a),
    ensures
        r is Ok <==> signature_payload_ok(p@),
        r matches Ok(k) ==> k + 6 == p@.len(),
{
    let n = p.len();
    if n < 6 || !(p[n - 6] == 0x45 && p[n - 5] == 0x4e && p[n - 4] == 0x44 && p[n - 3] == 0x53
        && p[n - 2] == 0x45 && p[n - 1] == 0x43) {
        proof {
            if n >= 6 {
                assert(p@.skip(n - 6)[0] == p@[n - 6]);
                assert(p@.skip(n - 6)[1] == p@[n - 5]);
                assert(p@.skip(n - 6)[2] == p@[n - 4]);
                assert(p@.skip(n - 6)[3] == p@[n - 3]);
                assert(p@.skip(n - 6)[4] == p@[n - 2]);
                assert(p@.skip(n - 6)[5] == p@[n - 1]);
            }
        }
        return Err("missing signature ENDSEC");
    }
    proof {
        assert(p@.skip(n - 6) =~= endsec());
    }
    let len = n - 6;
    let ghost c = p@.take(len as int);
    let mut data = len;
    while data > 0 && p[data - 1] == 0x3d
        invariant
            data <= len,
            len + 6 == n,
            n == p@.len(),
            forall|i: int| data <= i < len ==> p@[i] == 0x3d,
        decreases data,
    {
        data -= 1;
    }
    proof {
        lemma_trim_padding(c, data as int);
        assert(trim_padding(c) =~= p@.take(data as int));
    }
    let padding = len - data;
    if len == 0 || len % 4 != 0 || padding > 2 {
        return Err("invalid base64 signature length or padding");
    }
    let mut i: usize = 0;
    while i < data
        invariant
            i <= data,
            data <= len,
            len + 6 == p@.len(),
            c == p@.take(len as int),
            trim_padding(c) == p@.take(data as int),
            forall|k: int| 0 <= k < i ==> p@[k] != 0x3d,
        decreases data - i,
    {
        if p[i] == 0x3d {
            proof {
                assert(trim_padding(c)[i as int] == p@[i as int]);
                assert(trim_padding(c)[i as int] == 0x3d);
                assert(!base64_ok(c));
                assert(p@.take(p@.len() - 6) == c);
            }
            return Err("invalid base64 signature length or padding");
        }
        i += 1;
    }
    proof {
        assert forall|k: int| 0 <= k < trim_padding(c).len() implies #[trigger] trim_padding(c)[k]
            != 0x3d by {
            assert(trim_padding(c)[k] == p@[k]);
        }
    }
    let last: u8 = if data > 0 {
        match base64_digit(p[data - 1]) {
            Some(v) => v,
            None => 0,
        }
    } else {
        0
    };
    if (padding == 1 && last & 3 != 0) || (padding == 2 && last & 15 != 0) {
        return Err("nonzero base64 padding bits");
    }
    proof {
        if padding >= 1 {
            assert(data > 0);
            assert(trim_padding(c).last() == p@[data - 1]);
            assert(p@[data - 1] != 0x3d);
        }
    }
    Ok(len)
}

} // verus!
