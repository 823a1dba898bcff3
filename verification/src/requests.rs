//! Request payloads of the operations the engine exposes, as plain values.

use vstd::prelude::*;

verus! {

/// A request to add a user to an organization's general membership.
pub struct AddUserRequest {
    pub user_id: i32,
}

/// A request to remove a user from an organization's general membership.
pub struct RemoveUserRequest {
    pub user_id: i32,
}

/// A request to reorder the ranked roles of an organization: the ranked role
/// identifiers in their intended order.
pub struct ReorderRolesRequest {
    pub role_ids: Vec<i32>,
}

/// A request for the user file entries of a set of organizations within a
/// date window: a comma-separated list of organization identifiers and the
/// window bounds, in seconds since the epoch.
pub struct ListOrgUserFileEntriesRequest {
    pub organizations: String,
    pub from_start_date: i64,
    pub to_start_date: i64,
}

/// The parse of a comma-separated identifier list, one byte at a time:
/// `acc` holds the finished identifiers and `cur` the value of the token
/// being read, `None` before its first digit. The whole parse fails — and
/// only fails — on an empty token, a byte that is neither a digit nor a
/// comma, or a token value beyond `i32`.
pub open spec fn parse_ids_from(s: Seq<u8>, acc: Seq<i32>, cur: Option<int>) -> Option<Seq<i32>>
    decreases s.len(),
{
    if s.len() == 0 {
        match cur {
            Some(v) => Some(acc.push(v as i32)),
            None => None,
        }
    } else {
        let b = s.first();
        if b == 44 {
            match cur {
                Some(v) => parse_ids_from(s.drop_first(), acc.push(v as i32), None),
                None => None,
            }
        } else if 48 <= b && b <= 57 {
            let nv = (match cur {
                Some(v) => v * 10,
                None => 0int,
            }) + (b - 48);
            if nv > i32::MAX as int {
                None
            } else {
                parse_ids_from(s.drop_first(), acc, Some(nv))
            }
        } else {
            None
        }
    }
}

/// The organization identifiers encoded by a comma-separated byte string,
/// or nothing if any token is malformed.
pub open spec fn org_ids_of(s: Seq<u8>) -> Option<Seq<i32>> {
    parse_ids_from(s, Seq::empty(), None::<int>)
}

/// Parses a comma-separated list of decimal organization identifiers, as a
/// request's `organizations` field carries them. Returns the identifiers in
/// order; returns nothing — rather than a partial list — if the string holds
/// an empty token, a byte that is neither a digit nor a comma, or a value
/// beyond `i32`.
#[verifier::loop_isolation(false)]
pub fn parse_org_id_list(s: &Vec<u8>) -> (r: Option<Vec<i32>>)
    ensures
        match r {
            Some(v) => org_ids_of(s@) == Some(v@),
            None => org_ids_of(s@) is None,
        },
{
    let mut out: Vec<i32> = Vec::new();
    let mut cur: Option<i64> = None;
    let mut i: usize = 0;
    proof {
        assert(s@.skip(0) =~= s@);
    }
    while i < s.len()
        invariant
            0 <= i <= s@.len(),
            match cur {
                Some(v) => 0 <= v <= i32::MAX,
                None => true,
            },
            org_ids_of(s@) == parse_ids_from(
                s@.skip(i as int),
                out@,
                match cur {
                    Some(v) => Some(v as int),
                    None => None::<int>,
                },
            ),
        decreases s@.len() - i,
    {
        proof {
            assert(s@.skip(i as int).first() == s@[i as int]);
            assert(s@.skip(i as int).drop_first() =~= s@.skip(i + 1));
        }
        let b = s[i];
        if b == 44 {
            match cur {
                Some(v) => {
                    out.push(v as i32);
                    cur = None;
                },
                None => {
                    return None;
                },
            }
        } else if 48 <= b && b <= 57 {
            let d = (b - 48) as i64;
            let nv = match cur {
                Some(v) => v * 10 + d,
                None => d,
            };
            if nv > i32::MAX as i64 {
                return None;
            }
            cur = Some(nv);
        } else {
            return None;
        }
        i = i + 1;
    }
    proof {
        assert(s@.skip(s@.len() as int) =~= Seq::<u8>::empty());
    }
    match cur {
        Some(v) => {
            out.push(v as i32);
            Some(out)
        },
        None => None,
    }
}

} // verus!
