//! The interactive selection state machine.
//!
//! A session starts at the top-level menu of a grouping.  Each step takes
//! one line of user input: an alphabetic choice descends into the named
//! group it selects, a numeric choice resolves a leaf and ends the session
//! with its text (`"<group>: <item>"` inside a group, the bare item text
//! for an unclassified leaf), and anything else is rejected without
//! changing the level.  The surrounding command-line layer does the
//! prompting and reading; this module decides everything else.

use vstd::prelude::*;

use crate::grouping::{names_sorted, Groups};
use crate::menu::{
    build_sub_level, build_top_level, is_sub_level_of, is_top_level_of, keys_unique, letter_char,
    lemma_sub_level_keys_unique, lemma_top_level_keys_unique, letter_str, MenuEntry, MenuError, MenuItem,
    MenuLevel,
};
use crate::text::{
    all_alpha, dec_digits, has_delim, is_alpha, is_digit, lemma_dec_digits_shape, str_eq,
    str_eq_upper, trim_str, trimmed, upper_seq,
};

verus! {

/// The outcome of one step of the selection loop.
#[derive(Debug, PartialEq, Eq)]
pub enum StepStatus {
    /// The input selected a group; the session now shows its sub-level.
    Descended,
    /// The input selected a leaf; the session is over with this text.
    Selected(String),
    /// The input matched nothing; the session is unchanged.
    Invalid,
}

/// The transient state of one interactive selection.
#[derive(Debug)]
pub struct SelectionSession {
    pub groups: Groups,
    pub level: MenuLevel,
    pub group: Option<String>,
}

/// A non-empty input made of letters only; such an input is matched against
/// the letter keys after upper-casing.
pub open spec fn is_letter_input(t: Seq<char>) -> bool {
    t.len() > 0 && forall|j: int| 0 <= j < t.len() ==> is_alpha(#[trigger] t[j])
}

/// The level has the key `key` at position `i`.
pub open spec fn key_at(m: Seq<MenuItem>, key: Seq<char>, i: int) -> bool {
    0 <= i < m.len() && m[i].key@ == key
}

/// Some position of the level has the key `key`.
pub open spec fn has_key(m: Seq<MenuItem>, key: Seq<char>) -> bool {
    exists|i: int| key_at(m, key, i)
}

/// The text a selected leaf resolves to: `"<group>: <desc>"` when the leaf
/// carries its group's name, the bare description otherwise.
pub open spec fn leaf_text(group: Option<Seq<char>>, desc: Seq<char>) -> Seq<char> {
    match group {
        Some(g) => g + seq![':', ' '] + desc,
        None => desc,
    }
}

/// After descending through the group entry `e`, the session shows the
/// sub-level of the group `e` names.
pub open spec fn descended_to(pre: SelectionSession, post: SelectionSession, e: MenuEntry) -> bool {
    e matches MenuEntry::Group { name } && {
        &&& post.group.deep_view() == Some(name@)
        &&& exists|k: int|
            0 <= k < pre.groups.named@.len() && (#[trigger] pre.groups.named@[k].name)@ == name@
                && is_sub_level_of(
                post.level.items@,
                name@,
                pre.groups.named@[k].items.deep_view(),
            )
    }
}

/// Selecting the leaf entry `e` ended the session with its text.
pub open spec fn selected_from(e: MenuEntry, r: StepStatus) -> bool {
    e matches MenuEntry::Leaf { group, desc } && r matches StepStatus::Selected(s) && s@
        == leaf_text(group.deep_view(), desc@)
}

/// Everything one step of the session promises: the grouping is kept; input
/// is trimmed, then either matched upper-cased against a letter key (and the
/// session descends), matched verbatim against a numeric key (and the
/// session ends with the leaf's text), or rejected with the state unchanged.
pub open spec fn step_post(
    pre: SelectionSession,
    post: SelectionSession,
    raw: Seq<char>,
    r: StepStatus,
) -> bool {
    let t = trimmed(raw);
    let u = upper_seq(t);
    let m = pre.level.items@;
    &&& post.groups == pre.groups
    &&& (is_letter_input(t) && !has_key(m, u) ==> r is Invalid && post == pre)
    &&& (!is_letter_input(t) && !has_key(m, t) ==> r is Invalid && post == pre)
    &&& (is_letter_input(t) ==> forall|i: int|
        #[trigger] key_at(m, u, i) ==> r is Descended && descended_to(pre, post, m[i].entry))
    &&& (!is_letter_input(t) ==> forall|i: int|
        #[trigger] key_at(m, t, i) ==> selected_from(m[i].entry, r) && post == pre)
}

impl SelectionSession {
    /// The session's level belongs to its grouping: the top level when no
    /// group has been entered, else the sub-level of the entered group.
    pub open spec fn wf(self) -> bool {
        &&& names_sorted(self.groups.named@)
        &&& self.groups.named@.len() <= 26
        &&& match self.group {
            None => is_top_level_of(
                self.level.items@,
                self.groups.named@,
                self.groups.unclassified.deep_view(),
            ),
            Some(g) => exists|k: int|
                0 <= k < self.groups.named@.len() && (#[trigger] self.groups.named@[k].name)@ == g@
                    && is_sub_level_of(
                    self.level.items@,
                    g@,
                    self.groups.named@[k].items.deep_view(),
                ),
        }
    }

    /// Opens a session at the top level of a grouping, or reports that the
    /// grouping has too many named groups for the letters A-Z.
    pub fn begin(groups: Groups) -> (r: Result<SelectionSession, MenuError>)
        requires
            names_sorted(groups.named@),
        ensures
            match r {
                Ok(s) => {
                    &&& s.wf()
                    &&& s.groups == groups
                    &&& s.group is None
                    &&& is_top_level_of(
                        s.level.items@,
                        groups.named@,
                        groups.unclassified.deep_view(),
                    )
                },
                Err(e) => e == MenuError::TooManyGroups && groups.named@.len() > 26,
            },
    {
        match build_top_level(&groups) {
            Ok(level) => Ok(SelectionSession { groups, level, group: None }),
            Err(e) => Err(e),
        }
    }

    /// Resolves one line of user input against the current level.
    pub fn step(&mut self, raw: &str) -> (r: StepStatus)
        requires
            old(self).wf(),
        ensures
            final(self).wf(),
            step_post(*old(self), *final(self), raw@, r),
    {
        let t = trim_str(raw);
        let t_len = t.unicode_len();
        if t_len > 0 && all_alpha(t) {
            match find_key_upper(&self.level, t) {
                Some(i) => {
                    proof {
                        lemma_letter_key_is_group(*self, t@, i as int);
                    }
                    match &self.level.items[i].entry {
                        MenuEntry::Group { name } => {
                            let name = name.clone();
                            let sub = build_sub_level(
                                &self.groups.named[i].name,
                                &self.groups.named[i].items,
                            );
                            proof {
                                assert(name@ == self.groups.named@[i as int].name@);
                            }
                            self.level = sub;
                            self.group = Some(name);
                            proof {
                                lemma_unique_key_positions(*old(self), upper_seq(trimmed(raw@)));
                            }
                            StepStatus::Descended
                        },
                        MenuEntry::Leaf { .. } => {
                            proof {
                                assert(false);
                            }
                            StepStatus::Invalid
                        },
                    }
                },
                None => StepStatus::Invalid,
            }
        } else {
            match find_key(&self.level, t) {
                Some(i) => {
                    proof {
                        lemma_numeric_key_is_leaf(*self, t@, i as int);
                    }
                    match &self.level.items[i].entry {
                        MenuEntry::Leaf { group, desc } => {
                            let text = match group {
                                Some(g) => {
                                    let mut s = g.clone();
                                    s.append(": ");
                                    s.append(desc.as_str());
                                    proof {
                                        reveal_strlit(": ");
                                        assert(": "@ =~= seq![':', ' ']);
                                    }
                                    s
                                },
                                None => desc.clone(),
                            };
                            proof {
                                lemma_unique_key_positions(*self, trimmed(raw@));
                            }
                            StepStatus::Selected(text)
                        },
                        MenuEntry::Group { .. } => {
                            proof {
                                assert(false);
                            }
                            StepStatus::Invalid
                        },
                    }
                },
                None => StepStatus::Invalid,
            }
        }
    }
}

/// The prompt's key ranges: the highest letter key and the highest numeric
/// key that the current level offers.
#[derive(Clone, Copy, Debug, PartialEq, Eq)]
pub struct PromptBounds {
    pub last_letter: Option<char>,
    pub last_number: Option<usize>,
}

impl SelectionSession {
    /// Determines the highest letter key and the highest numeric key of the
    /// current level, for the prompt.  A level with neither is a fatal
    /// internal inconsistency; it cannot arise from a non-empty task list.
    pub fn prompt_bounds(&self) -> (r: Result<PromptBounds, MenuError>)
        requires
            self.wf(),
        ensures
            match r {
                Ok(b) => self.level.items@.len() > 0 && match self.group {
                    None => {
                        &&& b.last_letter == (if self.groups.named@.len() > 0 {
                            Some(letter_char(self.groups.named@.len() - 1))
                        } else {
                            Option::<char>::None
                        })
                        &&& b.last_number == (if self.groups.unclassified@.len() > 0 {
                            Some(self.groups.unclassified@.len() as usize)
                        } else {
                            Option::<usize>::None
                        })
                    },
                    Some(_) => b.last_letter is None && b.last_number == Some(
                        self.level.items@.len() as usize,
                    ),
                },
                Err(e) => e == MenuError::EmptyLevel && self.level.items@.len() == 0,
            },
    {
        match &self.group {
            None => {
                let n = self.groups.named.len();
                let u = self.groups.unclassified.len();
                if n == 0 && u == 0 {
                    return Err(MenuError::EmptyLevel);
                }
                let last_letter = if n > 0 {
                    Some(letter_str(n - 1).get_char(0))
                } else {
                    None
                };
                let last_number = if u > 0 {
                    Some(u)
                } else {
                    None
                };
                Ok(PromptBounds { last_letter, last_number })
            },
            Some(_) => {
                let len = self.level.items.len();
                if len == 0 {
                    return Err(MenuError::EmptyLevel);
                }
                Ok(PromptBounds { last_letter: None, last_number: Some(len) })
            },
        }
    }
}

/// Selecting a letter key that maps to a group descends into a sub-level
/// whose numeric keys are exactly 1..N for that group's N items in their
/// original order; selecting a numeric key there ends the session with
/// `"<group>: <item>"`.
pub proof fn lemma_descend_then_select(
    s0: SelectionSession,
    s1: SelectionSession,
    s2: SelectionSession,
    raw1: Seq<char>,
    raw2: Seq<char>,
    r1: StepStatus,
    r2: StepStatus,
    k: int,
    j: int,
)
    requires
        s0.wf(),
        s0.group is None,
        0 <= k < s0.groups.named@.len(),
        is_letter_input(trimmed(raw1)),
        upper_seq(trimmed(raw1)) == seq![letter_char(k)],
        step_post(s0, s1, raw1, r1),
        0 <= j < s0.groups.named@[k].items.deep_view().len(),
        trimmed(raw2) == dec_digits((j + 1) as nat),
        step_post(s1, s2, raw2, r2),
    ensures
        r1 is Descended,
        is_sub_level_of(s1.level.items@, s0.groups.named@[k].name@, s0.groups.named@[k].items.deep_view()),
        r2 matches StepStatus::Selected(text) && text@ == s0.groups.named@[k].name@
            + seq![':', ' '] + s0.groups.named@[k].items.deep_view()[j],
{
    let m0 = s0.level.items@;
    let u = upper_seq(trimmed(raw1));
    assert(m0[k].key@ == seq![letter_char(k)]);
    assert(key_at(m0, u, k));
    assert(r1 is Descended && descended_to(s0, s1, m0[k].entry));
    assert(m0[k].entry.is_group_named(s0.groups.named@[k].name@));
    let name = s0.groups.named@[k].name@;
    let kk = choose|kk: int|
        0 <= kk < s0.groups.named@.len() && (#[trigger] s0.groups.named@[kk].name)@ == name
            && is_sub_level_of(s1.level.items@, name, s0.groups.named@[kk].items.deep_view());
    if kk != k {
        crate::grouping::lemma_sorted_names_distinct(s0.groups.named@, kk, k);
    }
    let items = s0.groups.named@[k].items.deep_view();
    let t2 = trimmed(raw2);
    lemma_dec_digits_shape((j + 1) as nat);
    assert(!is_letter_input(t2)) by {
        assert(is_digit(t2[0]));
    }
    let m1 = s1.level.items@;
    assert(m1[j].key@ == dec_digits((j + 1) as nat));
    assert(key_at(m1, t2, j));
    assert(selected_from(m1[j].entry, r2));
    assert(m1[j].entry.is_leaf_of(Some(name), items[j]));
}

/// Selecting a numeric key for an unclassified leaf at the top level ends
/// the session with the bare item text, with no group prefix.
pub proof fn lemma_select_unclassified_bare(
    s0: SelectionSession,
    s1: SelectionSession,
    raw: Seq<char>,
    r: StepStatus,
    j: int,
)
    requires
        s0.wf(),
        s0.group is None,
        0 <= j < s0.groups.unclassified@.len(),
        trimmed(raw) == dec_digits((j + 1) as nat),
        step_post(s0, s1, raw, r),
    ensures
        r matches StepStatus::Selected(text) && text@ == s0.groups.unclassified.deep_view()[j],
        s1 == s0,
{
    let m0 = s0.level.items@;
    let n = s0.groups.named@.len() as int;
    let t = trimmed(raw);
    lemma_dec_digits_shape((j + 1) as nat);
    assert(!is_letter_input(t)) by {
        assert(is_digit(t[0]));
    }
    assert(m0[n + j].key@ == dec_digits((j + 1) as nat));
    assert(key_at(m0, t, n + j));
    assert(selected_from(m0[n + j].entry, r));
    assert(m0[n + j].entry.is_leaf_of(None, s0.groups.unclassified.deep_view()[j]));
}

/// An input that mixes a letter with a digit is rejected at any level and
/// leaves the session unchanged.
pub proof fn lemma_mixed_input_rejected(
    s0: SelectionSession,
    s1: SelectionSession,
    raw: Seq<char>,
    r: StepStatus,
    a: int,
    d: int,
)
    requires
        s0.wf(),
        step_post(s0, s1, raw, r),
        0 <= a < trimmed(raw).len(),
        is_alpha(trimmed(raw)[a]),
        0 <= d < trimmed(raw).len(),
        is_digit(trimmed(raw)[d]),
    ensures
        r is Invalid,
        s1 == s0,
{
    let t = trimmed(raw);
    let m0 = s0.level.items@;
    assert(!is_letter_input(t)) by {
        assert(!is_alpha(t[d]));
    }
    assert(!has_key(m0, t)) by {
        if has_key(m0, t) {
            let i = choose|i: int| key_at(m0, t, i);
            match s0.group {
                None => {
                    let n = s0.groups.named@.len() as int;
                    if i < n {
                        assert(m0[i].key@ == seq![letter_char(i)]);
                        assert(t.len() == 1);
                        assert(t[d] == letter_char(i));
                        assert(!is_digit(letter_char(i)));
                        assert(false);
                    } else {
                        lemma_dec_digits_shape((i - n + 1) as nat);
                        assert(is_digit(t[a]));
                        assert(false);
                    }
                },
                Some(g) => {
                    let k = choose|k: int|
                        0 <= k < s0.groups.named@.len() && (#[trigger] s0.groups.named@[k].name)@
                            == g@ && is_sub_level_of(
                            m0,
                            g@,
                            s0.groups.named@[k].items.deep_view(),
                        );
                    lemma_dec_digits_shape((i + 1) as nat);
                    assert(is_digit(t[a]));
                    assert(false);
                },
            }
        }
    }
}

/// A session over the grouping of a non-empty task list never shows an
/// empty level, so its fatal empty-level error cannot arise from real
/// input: the top level holds an entry for every group and every
/// unclassified item, and a sub-level holds the items that named its group.
pub proof fn lemma_nonempty_tasks_no_empty_level(s: SelectionSession, tasks: Seq<Seq<char>>)
    requires
        s.wf(),
        s.groups.is_grouping_of(tasks),
        tasks.len() > 0,
    ensures
        s.level.items@.len() > 0,
{
    match s.group {
        None => {
            if s.groups.named@.len() == 0 && s.groups.unclassified@.len() == 0 {
                let t = tasks[0];
                if has_delim(t) {
                    assert(crate::grouping::is_group_name(tasks, crate::grouping::task_group_name(t)));
                    assert(false);
                } else {
                    crate::grouping::lemma_unclassified_present(tasks, 0);
                    assert(false);
                }
            }
        },
        Some(g) => {
            let k = choose|k: int|
                0 <= k < s.groups.named@.len() && (#[trigger] s.groups.named@[k].name)@ == g@
                    && is_sub_level_of(
                    s.level.items@,
                    g@,
                    s.groups.named@[k].items.deep_view(),
                );
            crate::grouping::lemma_named_items_present(tasks, g@);
        },
    }
}

/// The keys of a well-formed session's level are unique, so one key names
/// one position.
proof fn lemma_unique_key_positions(s: SelectionSession, key: Seq<char>)
    requires
        s.wf(),
    ensures
        forall|i: int, j: int| key_at(s.level.items@, key, i) && key_at(s.level.items@, key, j) ==> i == j,
{
    let m = s.level.items@;
    match s.group {
        None => {
            lemma_top_level_keys_unique(m, s.groups.named@, s.groups.unclassified.deep_view());
        },
        Some(g) => {
            let k = choose|k: int|
                0 <= k < s.groups.named@.len() && (#[trigger] s.groups.named@[k].name)@ == g@
                    && is_sub_level_of(m, g@, s.groups.named@[k].items.deep_view());
            lemma_sub_level_keys_unique(m, g@, s.groups.named@[k].items.deep_view());
        },
    }
    assert forall|i: int, j: int|
        key_at(m, key, i) && key_at(m, key, j) implies i == j by {
        if i != j {
            assert(keys_unique(m));
        }
    }
}

/// In a well-formed session, a key that an all-letter input can match
/// belongs to a lettered group entry of the top level.
proof fn lemma_letter_key_is_group(s: SelectionSession, t: Seq<char>, i: int)
    requires
        s.wf(),
        is_letter_input(t),
        key_at(s.level.items@, upper_seq(t), i),
    ensures
        s.group is None,
        0 <= i < s.groups.named@.len(),
        s.level.items@[i].entry is Group,
        s.level.items@[i].entry.is_group_named(s.groups.named@[i].name@),
{
    let m = s.level.items@;
    let u = upper_seq(t);
    assert(u.len() == t.len());
    assert(u[0] == crate::text::upper_char(t[0]));
    assert(is_alpha(t[0]));
    assert(!is_digit(u[0]));
    match s.group {
        None => {
            if i >= s.groups.named@.len() {
                assert(m[i].key@ == dec_digits((i - s.groups.named@.len() + 1) as nat));
                lemma_dec_digits_shape((i - s.groups.named@.len() + 1) as nat);
                assert(is_digit(u[0]));
                assert(false);
            }
            assert(m[i].key@ == seq![letter_char(i)]);
        },
        Some(g) => {
            let k = choose|k: int|
                0 <= k < s.groups.named@.len() && (#[trigger] s.groups.named@[k].name)@ == g@
                    && is_sub_level_of(m, g@, s.groups.named@[k].items.deep_view());
            assert(m[i].key@ == dec_digits((i + 1) as nat));
            lemma_dec_digits_shape((i + 1) as nat);
            assert(is_digit(u[0]));
            assert(false);
        },
    }
}

/// In a well-formed session, a key that an input with anything but letters
/// can match belongs to a numbered leaf entry.
proof fn lemma_numeric_key_is_leaf(s: SelectionSession, t: Seq<char>, i: int)
    requires
        s.wf(),
        !is_letter_input(t),
        key_at(s.level.items@, t, i),
    ensures
        s.level.items@[i].entry is Leaf,
{
    let m = s.level.items@;
    match s.group {
        None => {
            if i < s.groups.named@.len() {
                assert(m[i].key@ == seq![letter_char(i)]);
                assert(t.len() == 1);
                assert(t[0] == letter_char(i));
                assert(is_alpha(letter_char(i)));
                assert(is_letter_input(t));
                assert(false);
            }
            assert(m[i].entry.is_leaf_of(
                None,
                s.groups.unclassified.deep_view()[i - s.groups.named@.len()],
            ));
        },
        Some(g) => {
            let k = choose|k: int|
                0 <= k < s.groups.named@.len() && (#[trigger] s.groups.named@[k].name)@ == g@
                    && is_sub_level_of(m, g@, s.groups.named@[k].items.deep_view());
            assert(m[i].entry.is_leaf_of(
                Some(g@),
                s.groups.named@[k].items.deep_view()[i],
            ));
        },
    }
}

/// Finds the position whose key equals the upper-cased input.
fn find_key_upper(level: &MenuLevel, t: &str) -> (r: Option<usize>)
    ensures
        match r {
            Some(i) => key_at(level.items@, upper_seq(t@), i as int),
            None => !has_key(level.items@, upper_seq(t@)),
        },
{
    let n = level.items.len();
    let mut i: usize = 0;
    while i < n
        invariant
            i <= n,
            n == level.items@.len(),
            forall|q: int| 0 <= q < i ==> !key_at(level.items@, upper_seq(t@), q),
        decreases n - i,
    {
        if str_eq_upper(level.items[i].key.as_str(), t) {
            return Some(i);
        }
        i = i + 1;
    }
    None
}

/// Finds the position whose key equals the input verbatim.
fn find_key(level: &MenuLevel, t: &str) -> (r: Option<usize>)
    ensures
        match r {
            Some(i) => key_at(level.items@, t@, i as int),
            None => !has_key(level.items@, t@),
        },
{
    let n = level.items.len();
    let mut i: usize = 0;
    while i < n
        invariant
            i <= n,
            n == level.items@.len(),
            forall|q: int| 0 <= q < i ==> !key_at(level.items@, t@, q),
        decreases n - i,
    {
        if str_eq(level.items[i].key.as_str(), t) {
            return Some(i);
        }
        i = i + 1;
    }
    None
}

} // verus!
