//! Per-VM matching rules and their matching against device identities.
//!
//! A [`UsbFilter`] holds an optional vendor id and an optional product
//! id. An id is stored only when it was supplied as exactly four
//! hexadecimal digits; anything else leaves the field absent. A filter
//! matches a [`DeviceIdentity`] exactly when both of its fields are
//! present and equal, character for character, to the identity's ids —
//! so a filter with an absent field matches nothing
//! ([`lemma_absent_field_never_matches`]).

use crate::identity::{DeviceIdentity, IdentitySpec};
use vstd::prelude::*;
use vstd::string::StrSliceExecFns;

verus! {

/// A hexadecimal digit, either case.
pub open spec fn is_hex_digit(c: char) -> bool {
    ('0' as u32 <= c as u32 && c as u32 <= '9' as u32) || ('a' as u32 <= c as u32 && c as u32
        <= 'f' as u32) || ('A' as u32 <= c as u32 && c as u32 <= 'F' as u32)
}

/// A vendor or product id as a rule may store it: exactly four
/// hexadecimal digits.
pub open spec fn is_valid_id(s: Seq<char>) -> bool {
    s.len() == 4 && (forall|i: int| 0 <= i < s.len() ==> is_hex_digit(#[trigger] s[i]))
}

/// Spec-level value of a [`UsbFilter`].
#[verifier::ext_equal]
pub ghost struct FilterSpec {
    pub vid: Option<Seq<char>>,
    pub pid: Option<Seq<char>>,
}

/// The filter that a device identity satisfies: both ids present and
/// equal to the identity's.
pub open spec fn identity_filter(id: IdentitySpec) -> FilterSpec {
    FilterSpec { vid: Some(id.vid), pid: Some(id.pid) }
}

/// Whether a stored rule matches a resolved device identity.
pub open spec fn filter_matches(f: FilterSpec, id: IdentitySpec) -> bool {
    f == identity_filter(id)
}

/// A rule with either id absent can match no device identity, since an
/// identity always carries both ids.
pub proof fn lemma_absent_field_never_matches(f: FilterSpec, id: IdentitySpec)
    requires
        f.vid is None || f.pid is None,
    ensures
        !filter_matches(f, id),
{
}

/// A matching rule: an optional vendor id and an optional product id,
/// each stored only when supplied as exactly four hex digits.
#[derive(Debug)]
pub struct UsbFilter {
    vid: Option<String>,
    pid: Option<String>,
}

impl View for UsbFilter {
    type V = FilterSpec;

    closed spec fn view(&self) -> FilterSpec {
        FilterSpec {
            vid: match self.vid {
                Some(s) => Some(s@),
                None => None,
            },
            pid: match self.pid {
                Some(s) => Some(s@),
                None => None,
            },
        }
    }
}

fn clone_id(o: &Option<String>) -> (r: Option<String>)
    ensures
        r == *o,
{
    match o {
        Some(s) => Some(s.clone()),
        None => None,
    }
}

impl Clone for UsbFilter {
    fn clone(&self) -> (r: Self)
        ensures
            r == *self,
    {
        UsbFilter { vid: clone_id(&self.vid), pid: clone_id(&self.pid) }
    }
}

fn is_hex_digit_char(c: char) -> (r: bool)
    ensures
        r == is_hex_digit(c),
{
    let n = c as u32;
    (48 <= n && n <= 57) || (97 <= n && n <= 102) || (65 <= n && n <= 70)
}

/// The stored form of a supplied id: the id itself when it is exactly
/// four hex digits, absent otherwise.
fn accept_id(s: &str) -> (r: Option<String>)
    ensures
        is_valid_id(s@) ==> (r matches Some(t) && t@ == s@),
        !is_valid_id(s@) ==> r is None,
{
    let n = s.unicode_len();
    if n != 4 {
        return None;
    }
    let mut i: usize = 0;
    while i < 4
        invariant
            s@.len() == 4,
            i <= 4,
            forall|j: int| 0 <= j < i ==> is_hex_digit(#[trigger] s@[j]),
        decreases 4 - i,
    {
        if !is_hex_digit_char(s.get_char(i)) {
            return None;
        }
        i = i + 1;
    }
    Some(s.to_owned())
}

impl UsbFilter {
    /// Build a rule from the two ids supplied over IPC. A supplied id
    /// is kept only when it is exactly four hexadecimal digits;
    /// otherwise that field becomes absent.
    pub fn from_ids(vid: &str, pid: &str) -> (r: UsbFilter)
        ensures
            r@.vid == (if is_valid_id(vid@) {
                Some(vid@)
            } else {
                None::<Seq<char>>
            }),
            r@.pid == (if is_valid_id(pid@) {
                Some(pid@)
            } else {
                None::<Seq<char>>
            }),
    {
        UsbFilter { vid: accept_id(vid), pid: accept_id(pid) }
    }

    /// The stored vendor id, if present.
    pub fn vid(&self) -> (r: &Option<String>)
        ensures
            r.deep_view() == self@.vid,
    {
        &self.vid
    }

    /// The stored product id, if present.
    pub fn pid(&self) -> (r: &Option<String>)
        ensures
            r.deep_view() == self@.pid,
    {
        &self.pid
    }

    /// Whether two rules are the same: both optional fields equal,
    /// including both-absent.
    pub fn same_rule(&self, other: &UsbFilter) -> (r: bool)
        ensures
            r == (self@ == other@),
    {
        opt_id_eq(&self.vid, &other.vid) && opt_id_eq(&self.pid, &other.pid)
    }

    /// Whether this rule matches a resolved device identity: both
    /// fields present and equal to the identity's ids.
    pub fn matches_identity(&self, id: &DeviceIdentity) -> (r: bool)
        ensures
            r == filter_matches(self@, id@),
    {
        let vid_ok = match &self.vid {
            Some(v) => *v == id.vid,
            None => false,
        };
        let pid_ok = match &self.pid {
            Some(p) => *p == id.pid,
            None => false,
        };
        vid_ok && pid_ok
    }
}

fn opt_id_eq(a: &Option<String>, b: &Option<String>) -> (r: bool)
    ensures
        r == (a.deep_view() == b.deep_view()),
{
    match (a, b) {
        (Some(x), Some(y)) => *x == *y,
        (None, None) => true,
        _ => false,
    }
}

} // verus!
