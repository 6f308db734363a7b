//! The decisions behind the punch commands: which punch requests are
//! well-formed, which cost centre a description resolves to, and what the
//! listing of recent punches asks for and how it lays its lines out.  The
//! HTTP transport and the JSON encoding around these decisions live outside
//! the library.

use vstd::prelude::*;

use crate::text::{contains_seq, contains_substr, dec_digits, usize_to_string};

verus! {

/// The kind of a worktime punch event.
#[derive(Clone, Copy, Debug, PartialEq, Eq, Structural)]
pub enum PunchType {
    Break,
    Login,
    Logout,
}

impl PunchType {
    /// The name of this punch type on the wire and on screen.
    pub open spec fn label_view(self) -> Seq<char> {
        match self {
            PunchType::Break => "BREAK"@,
            PunchType::Login => "LOGIN"@,
            PunchType::Logout => "LOGOUT"@,
        }
    }

    /// Writes the punch type's name.
    pub fn label(&self) -> (r: String)
        ensures
            r@ == self.label_view(),
    {
        match self {
            PunchType::Break => String::from_str("BREAK"),
            PunchType::Login => String::from_str("LOGIN"),
            PunchType::Logout => String::from_str("LOGOUT"),
        }
    }
}

/// Why a punch request could not be formed.
#[derive(Clone, Copy, Debug, PartialEq, Eq, Structural)]
pub enum PunchError {
    /// Starting a break is not supported.
    BreakUnsupported,
    /// A login punch needs a description.
    MissingDescription,
    /// A login punch needs a customer cost centre.
    MissingCostCentre,
}

/// A punch request that is ready to be encoded and sent: a login carries a
/// description and a cost centre, a logout carries neither.
#[derive(Debug, PartialEq, Eq)]
pub struct PunchRequest {
    pub punch_type: PunchType,
    pub description: Option<String>,
    pub cost_centre: Option<u32>,
}

/// Forms the punch request of a start or stop command, or says what the
/// command lacks: a break is never supported, and a login punch must carry
/// a description and a cost centre.  A logout punch carries neither,
/// whatever was supplied.
pub fn create_punch_request(punch_type: PunchType, description: Option<String>, cost_centre: Option<
    u32,
>) -> (r: Result<PunchRequest, PunchError>)
    ensures
        match r {
            Ok(q) => {
                &&& (punch_type is Login || punch_type is Logout)
                &&& q.punch_type == punch_type
                &&& (punch_type is Login ==> description is Some && cost_centre is Some
                    && q.description == description && q.cost_centre == cost_centre)
                &&& (punch_type is Logout ==> q.description is None && q.cost_centre is None)
            },
            Err(e) => match e {
                PunchError::BreakUnsupported => punch_type is Break,
                PunchError::MissingDescription => punch_type is Login && description is None,
                PunchError::MissingCostCentre => punch_type is Login && description is Some
                    && cost_centre is None,
            },
        },
{
    match punch_type {
        PunchType::Break => Err(PunchError::BreakUnsupported),
        PunchType::Login => {
            if description.is_none() {
                Err(PunchError::MissingDescription)
            } else if cost_centre.is_none() {
                Err(PunchError::MissingCostCentre)
            } else {
                Ok(PunchRequest { punch_type, description, cost_centre })
            }
        },
        PunchType::Logout => Ok(
            PunchRequest { punch_type, description: None, cost_centre: None },
        ),
    }
}

/// Resolves the customer cost centre of a punch description: descriptions
/// that mention the information-security project carry its cost centre,
/// everything else the general development one.
pub fn ask_costcentre(desc: &str) -> (r: u32)
    ensures
        r == if contains_seq(desc@, "ISO27"@) {
            892621u32
        } else {
            901184u32
        },
{
    if contains_substr(desc, "ISO27") {
        892621u32
    } else {
        901184u32
    }
}

/// The query parameters of the listing request: newest first, a page of
/// `count` lines, restricted to one punch type when one is given.
pub fn latest_punch_params(count: u32, punch_type: Option<PunchType>) -> (r: Vec<(String, String)>)
    ensures
        r@.len() == (if punch_type is Some {
            3int
        } else {
            2int
        }),
        r@[0].0@ == "orderBy"@ && r@[0].1@ == "timestamp DESC"@,
        r@[1].0@ == "pageSize"@ && r@[1].1@ == dec_digits(count as nat),
        punch_type matches Some(pt) ==> r@[2].0@ == "type"@ && r@[2].1@ == pt.label_view(),
{
    let mut params: Vec<(String, String)> = Vec::new();
    params.push((String::from_str("orderBy"), String::from_str("timestamp DESC")));
    params.push((String::from_str("pageSize"), usize_to_string(count as usize)));
    match punch_type {
        Some(pt) => params.push((String::from_str("type"), pt.label())),
        None => (),
    }
    params
}

/// The heading of the listing of recent punches.
pub open spec fn punch_list_header_view(count: nat, punch_type: Option<PunchType>) -> Seq<char> {
    match punch_type {
        None => "Latest "@ + dec_digits(count) + " worktime punch line(s) in ascending order"@,
        Some(pt) => "Latest "@ + dec_digits(count) + " worktime "@ + pt.label_view()
            + " punch line(s) in ascending order"@,
    }
}

/// Writes the heading of the listing of recent punches.
pub fn punch_list_header(count: u32, punch_type: Option<PunchType>) -> (r: String)
    ensures
        r@ == punch_list_header_view(count as nat, punch_type),
{
    let mut s = String::from_str("Latest ");
    let n = usize_to_string(count as usize);
    s.append(n.as_str());
    match punch_type {
        None => {
            s.append(" worktime punch line(s) in ascending order");
        },
        Some(pt) => {
            s.append(" worktime ");
            let label = pt.label();
            s.append(label.as_str());
            s.append(" punch line(s) in ascending order");
        },
    }
    s
}

/// The width of the description column of the punch listing: the length of
/// the widest description present, counted in characters, or 40 where none
/// is.
pub fn desc_column_width(descs: &Vec<Option<String>>) -> (r: usize)
    ensures
        (forall|i: int| 0 <= i < descs@.len() ==> (#[trigger] descs@[i]) is None) ==> r == 40,
        (exists|i: int| 0 <= i < descs@.len() && (#[trigger] descs@[i]) is Some) ==> {
            &&& exists|i: int|
                0 <= i < descs@.len() && ((#[trigger] descs@[i]) matches Some(d) && r == d@.len())
            &&& forall|i: int|
                0 <= i < descs@.len() ==> ((#[trigger] descs@[i]) matches Some(d) ==> d@.len()
                    <= r)
        },
{
    let mut best: Option<usize> = None;
    let mut i: usize = 0;
    while i < descs.len()
        invariant
            i <= descs@.len(),
            best is None ==> forall|q: int| 0 <= q < i ==> (#[trigger] descs@[q]) is None,
            best matches Some(w) ==> {
                &&& exists|q: int|
                    0 <= q < i && ((#[trigger] descs@[q]) matches Some(d) && w == d@.len())
                &&& forall|q: int|
                    0 <= q < i ==> ((#[trigger] descs@[q]) matches Some(d) ==> d@.len() <= w)
            },
        decreases descs@.len() - i,
    {
        match &descs[i] {
            Some(d) => {
                let w = d.as_str().unicode_len();
                match best {
                    None => {
                        best = Some(w);
                    },
                    Some(b) => {
                        if w > b {
                            best = Some(w);
                        }
                    },
                }
            },
            None => (),
        }
        i = i + 1;
    }
    match best {
        Some(w) => w,
        None => 40,
    }
}

/// The Unix time, in milliseconds, that an RFC 3339 timestamp string
/// denotes, or nothing for a string that is not one.
pub uninterp spec fn rfc3339_epoch_millis(s: Seq<char>) -> Option<i64>;

/// Relies on chrono's `DateTime::parse_from_rfc3339` and
/// `DateTime::timestamp_millis`: parsing a fixed-format timestamp string
/// and taking its Unix time depend on the string alone.
#[verifier::external_body]
fn parse_rfc3339_epoch_millis(s: &str) -> (r: Option<i64>)
    ensures
        r == rfc3339_epoch_millis(s@),
{
    match chrono::DateTime::parse_from_rfc3339(s) {
        Ok(dt) => Some(dt.timestamp_millis()),
        Err(_) => None,
    }
}

/// The display order of two punch lines by parsed timestamp: lines whose
/// timestamp does not parse sort before every line whose timestamp does.
pub open spec fn key_le(a: Option<i64>, b: Option<i64>) -> bool {
    match (a, b) {
        (Option::None, _) => true,
        (Option::Some(x), Option::Some(y)) => x <= y,
        (Option::Some(_), Option::None) => false,
    }
}

/// Decides the display order of two parsed timestamps.
fn key_le_exec(a: &Option<i64>, b: &Option<i64>) -> (r: bool)
    ensures
        r == key_le(*a, *b),
{
    match (a, b) {
        (Option::None, _) => true,
        (Option::Some(x), Option::Some(y)) => *x <= *y,
        (Option::Some(_), Option::None) => false,
    }
}

/// Orders the punch lines of a listing for display: ascending by the time
/// their timestamp strings parse to, with unparseable timestamps first.
/// Returns the positions of the lines in that order; equal times may come
/// out in any order, as with an unstable sort.
pub fn sort_punches_by_time(stamps: &Vec<String>) -> (order: Vec<usize>)
    ensures
        order@.len() == stamps@.len(),
        forall|i: int| 0 <= i < order@.len() ==> (#[trigger] order@[i]) < stamps@.len(),
        forall|i: int, j: int| 0 <= i < j < order@.len() ==> order@[i] != order@[j],
        forall|i: int, j: int|
            0 <= i < j < order@.len() ==> key_le(
                rfc3339_epoch_millis(stamps.deep_view()[order@[i] as int]),
                rfc3339_epoch_millis(stamps.deep_view()[order@[j] as int]),
            ),
{
    let ghost sv = stamps.deep_view();
    let n = stamps.len();
    let mut keys: Vec<Option<i64>> = Vec::new();
    let mut i: usize = 0;
    while i < n
        invariant
            i <= n,
            n == stamps@.len(),
            keys@.len() == i,
            sv == stamps.deep_view(),
            forall|q: int| 0 <= q < i ==> #[trigger] keys@[q] == rfc3339_epoch_millis(sv[q]),
        decreases n - i,
    {
        let k = parse_rfc3339_epoch_millis(stamps[i].as_str());
        keys.push(k);
        i = i + 1;
    }
    let mut order: Vec<usize> = Vec::new();
    let mut idx: usize = 0;
    while idx < n
        invariant
            idx <= n,
            n == stamps@.len(),
            keys@.len() == n,
            sv == stamps.deep_view(),
            forall|q: int| 0 <= q < n ==> #[trigger] keys@[q] == rfc3339_epoch_millis(sv[q]),
            order@.len() == idx,
            forall|q: int| 0 <= q < idx ==> (#[trigger] order@[q]) < idx,
            forall|a: int, b: int| 0 <= a < b < idx ==> order@[a] != order@[b],
            forall|a: int, b: int|
                0 <= a < b < idx ==> key_le(
                    keys@[order@[a] as int],
                    keys@[order@[b] as int],
                ),
        decreases n - idx,
    {
        let key_idx = keys[idx];
        let mut p: usize = 0;
        while p < order.len() && key_le_exec(&keys[order[p]], &key_idx)
            invariant
                p <= order@.len(),
                order@.len() == idx,
                idx < n,
                keys@.len() == n,
                key_idx == keys@[idx as int],
                forall|q: int| 0 <= q < idx ==> (#[trigger] order@[q]) < idx,
                forall|q: int| 0 <= q < p ==> key_le(keys@[order@[q] as int], keys@[idx as int]),
            decreases order@.len() - p,
        {
            p = p + 1;
        }
        let ghost old_order = order@;
        order.insert(p, idx);
        proof {
            assert forall|a: int, b: int| 0 <= a < b < idx + 1 implies key_le(
                keys@[order@[a] as int],
                keys@[order@[b] as int],
            ) by {
                let pp = p as int;
                if b < pp {
                } else if a < pp && b == pp {
                    assert(order@[b] == idx);
                } else if a == pp {
                    assert(order@[a] == idx);
                    assert(order@[b] == old_order[b - 1]);
                    assert(key_le(keys@[idx as int], keys@[old_order[pp] as int]));
                    if b - 1 > pp {
                        assert(key_le(keys@[old_order[pp] as int], keys@[old_order[b - 1] as int]));
                    }
                } else if a < pp && b > pp {
                    assert(order@[a] == old_order[a]);
                    assert(order@[b] == old_order[b - 1]);
                } else {
                    assert(order@[a] == old_order[a - 1]);
                    assert(order@[b] == old_order[b - 1]);
                }
            }
            assert forall|a: int, b: int| 0 <= a < b < idx + 1 implies order@[a] != order@[b] by {
                let pp = p as int;
                if a == pp {
                    assert(order@[a] == idx && order@[b] == old_order[b - 1]);
                } else if b == pp {
                    assert(order@[b] == idx && order@[a] == old_order[a]);
                }
            }
        }
        idx = idx + 1;
    }
    proof {
        assert forall|i: int, j: int| 0 <= i < j < order@.len() implies key_le(
            rfc3339_epoch_millis(sv[order@[i] as int]),
            rfc3339_epoch_millis(sv[order@[j] as int]),
        ) by {
            assert(keys@[order@[i] as int] == rfc3339_epoch_millis(sv[order@[i] as int]));
            assert(keys@[order@[j] as int] == rfc3339_epoch_millis(sv[order@[j] as int]));
        }
    }
    order
}

} // verus!
