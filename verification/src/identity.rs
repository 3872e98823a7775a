//! Resolved identity of a physically connected USB device, and the
//! whitespace trimming applied to raw attribute values.
//!
//! The device-management subsystem exposes a device's vendor id,
//! product id, bus number and device number as small attribute files
//! whose contents carry surrounding whitespace (typically a trailing
//! newline). Resolution reads those four values (outside this crate)
//! and trims them; the trimmed values form a [`DeviceIdentity`], which
//! always has every field populated.

use vstd::prelude::*;
use vstd::string::StrSliceExecFns;

verus! {

/// Whitespace as it occurs around attribute values: space, tab,
/// newline, carriage return.
pub open spec fn is_space(c: char) -> bool {
    c == ' ' || c == '\t' || c == '\n' || c == '\r'
}

/// The sequence with its leading whitespace removed.
pub open spec fn drop_leading_spaces(s: Seq<char>) -> Seq<char>
    decreases s.len(),
{
    if s.len() > 0 && is_space(s[0]) {
        drop_leading_spaces(s.drop_first())
    } else {
        s
    }
}

/// The sequence with its trailing whitespace removed.
pub open spec fn drop_trailing_spaces(s: Seq<char>) -> Seq<char>
    decreases s.len(),
{
    if s.len() > 0 && is_space(s.last()) {
        drop_trailing_spaces(s.drop_last())
    } else {
        s
    }
}

/// The sequence with surrounding whitespace removed.
pub open spec fn trimmed(s: Seq<char>) -> Seq<char> {
    drop_trailing_spaces(drop_leading_spaces(s))
}

fn is_space_char(c: char) -> (r: bool)
    ensures
        r == is_space(c),
{
    c == ' ' || c == '\t' || c == '\n' || c == '\r'
}

proof fn lemma_drop_leading_shift(s: Seq<char>, i: int)
    requires
        0 <= i < s.len(),
        is_space(s[i]),
    ensures
        drop_leading_spaces(s.subrange(i, s.len() as int)) == drop_leading_spaces(
            s.subrange(i + 1, s.len() as int),
        ),
{
    let t = s.subrange(i, s.len() as int);
    assert(t.len() > 0 && is_space(t[0]));
    assert(t.drop_first() =~= s.subrange(i + 1, s.len() as int));
}

proof fn lemma_drop_trailing_shift(s: Seq<char>, lo: int, hi: int)
    requires
        0 <= lo < hi <= s.len(),
        is_space(s[hi - 1]),
    ensures
        drop_trailing_spaces(s.subrange(lo, hi)) == drop_trailing_spaces(s.subrange(lo, hi - 1)),
{
    let t = s.subrange(lo, hi);
    assert(t.len() > 0 && is_space(t.last()));
    assert(t.drop_last() =~= s.subrange(lo, hi - 1));
}

/// Copy of `s` with surrounding whitespace removed.
pub fn trim_ws(s: &str) -> (r: String)
    ensures
        r@ == trimmed(s@),
{
    let n = s.unicode_len();
    proof {
        assert(s@.subrange(0, n as int) =~= s@);
    }
    let mut start: usize = 0;
    while start < n && is_space_char(s.get_char(start))
        invariant
            n == s@.len(),
            start <= n,
            drop_leading_spaces(s@) == drop_leading_spaces(s@.subrange(start as int, n as int)),
        decreases n - start,
    {
        proof {
            lemma_drop_leading_shift(s@, start as int);
        }
        start = start + 1;
    }
    proof {
        assert(s@.subrange(0, n as int) =~= s@);
        let rest = s@.subrange(start as int, n as int);
        if start < n {
            assert(rest[0] == s@[start as int]);
        }
        assert(drop_leading_spaces(rest) == rest);
    }
    let mut end: usize = n;
    while end > start && is_space_char(s.get_char(end - 1))
        invariant
            n == s@.len(),
            start <= end <= n,
            drop_leading_spaces(s@) == s@.subrange(start as int, n as int),
            drop_trailing_spaces(s@.subrange(start as int, n as int)) == drop_trailing_spaces(
                s@.subrange(start as int, end as int),
            ),
        decreases end,
    {
        proof {
            lemma_drop_trailing_shift(s@, start as int, end as int);
        }
        end = end - 1;
    }
    proof {
        let piece = s@.subrange(start as int, end as int);
        if end > start {
            assert(piece.last() == s@[end - 1]);
        }
        assert(drop_trailing_spaces(piece) == piece);
    }
    let r = s.substring_char(start, end);
    r.to_owned()
}

/// Spec-level value of a [`DeviceIdentity`].
#[verifier::ext_equal]
pub ghost struct IdentitySpec {
    pub vid: Seq<char>,
    pub pid: Seq<char>,
    pub bus: Seq<char>,
    pub devnum: Seq<char>,
}

/// The resolved identity of a physically connected device. Unlike a
/// filter rule, an identity always has both the vendor id and the
/// product id populated, plus the bus and device numbers needed to
/// build the attachment descriptor.
#[derive(Debug)]
pub struct DeviceIdentity {
    pub vid: String,
    pub pid: String,
    pub bus: String,
    pub devnum: String,
}

impl View for DeviceIdentity {
    type V = IdentitySpec;

    open spec fn view(&self) -> IdentitySpec {
        IdentitySpec { vid: self.vid@, pid: self.pid@, bus: self.bus@, devnum: self.devnum@ }
    }
}

impl Clone for DeviceIdentity {
    fn clone(&self) -> (r: Self)
        ensures
            r == *self,
    {
        DeviceIdentity {
            vid: self.vid.clone(),
            pid: self.pid.clone(),
            bus: self.bus.clone(),
            devnum: self.devnum.clone(),
        }
    }
}

impl DeviceIdentity {
    /// Resolve an identity from the four raw attribute values read for
    /// a hotplug add notification: each field is the raw value with
    /// surrounding whitespace removed.
    pub fn resolve(vid_raw: &str, pid_raw: &str, bus_raw: &str, devnum_raw: &str) -> (r:
        DeviceIdentity)
        ensures
            r@.vid == trimmed(vid_raw@),
            r@.pid == trimmed(pid_raw@),
            r@.bus == trimmed(bus_raw@),
            r@.devnum == trimmed(devnum_raw@),
    {
        DeviceIdentity {
            vid: trim_ws(vid_raw),
            pid: trim_ws(pid_raw),
            bus: trim_ws(bus_raw),
            devnum: trim_ws(devnum_raw),
        }
    }
}

} // verus!
