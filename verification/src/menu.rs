//! Builds one selectable menu level from a grouping.
//!
//! The top level assigns the letters `A`, `B`, ... to the named groups in
//! their lexicographic order, then numbers the unclassified items from 1;
//! more than 26 named groups is a fatal configuration error.  Descending
//! into a group builds a sub-level that numbers the group's items from 1.
//! Entries are kept as an explicit ordered sequence of key/value pairs, so
//! the displayed order is exactly the build order.

use vstd::prelude::*;

use crate::grouping::{GroupEntry, Groups};
use crate::text::{dec_digits, is_digit, lemma_dec_digits_injective, lemma_dec_digits_shape,
    usize_to_string};

verus! {

/// What one menu key resolves to: a group to descend into, or a selectable
/// task description, with its group name when it has one.
#[derive(Debug, PartialEq, Eq)]
pub enum MenuEntry {
    Group { name: String },
    Leaf { group: Option<String>, desc: String },
}

/// One key/value pair of a menu level.
#[derive(Debug, PartialEq, Eq)]
pub struct MenuItem {
    pub key: String,
    pub entry: MenuEntry,
}

/// One menu level: its key/value pairs, in display order.
#[derive(Debug, PartialEq, Eq)]
pub struct MenuLevel {
    pub items: Vec<MenuItem>,
}

/// The fatal configuration errors of menu handling.
#[derive(Clone, Copy, Debug, PartialEq, Eq, Structural)]
pub enum MenuError {
    /// More than 26 named groups: the letters A-Z do not suffice.
    TooManyGroups,
    /// A freshly built level has no key at all to offer.
    EmptyLevel,
}

impl MenuEntry {
    /// This entry descends into the group called `name`.
    pub open spec fn is_group_named(self, name: Seq<char>) -> bool {
        self matches MenuEntry::Group { name: g } && g@ == name
    }

    /// This entry selects `desc`, qualified by `group` when present.
    pub open spec fn is_leaf_of(self, group: Option<Seq<char>>, desc: Seq<char>) -> bool {
        self matches MenuEntry::Leaf { group: g, desc: d } && g.deep_view() == group && d@ == desc
    }
}

/// The letter key of the group at position `i`: `A` for the first group.
pub open spec fn letter_char(i: int) -> char {
    if i == 0 {
        'A'
    } else if i == 1 {
        'B'
    } else if i == 2 {
        'C'
    } else if i == 3 {
        'D'
    } else if i == 4 {
        'E'
    } else if i == 5 {
        'F'
    } else if i == 6 {
        'G'
    } else if i == 7 {
        'H'
    } else if i == 8 {
        'I'
    } else if i == 9 {
        'J'
    } else if i == 10 {
        'K'
    } else if i == 11 {
        'L'
    } else if i == 12 {
        'M'
    } else if i == 13 {
        'N'
    } else if i == 14 {
        'O'
    } else if i == 15 {
        'P'
    } else if i == 16 {
        'Q'
    } else if i == 17 {
        'R'
    } else if i == 18 {
        'S'
    } else if i == 19 {
        'T'
    } else if i == 20 {
        'U'
    } else if i == 21 {
        'V'
    } else if i == 22 {
        'W'
    } else if i == 23 {
        'X'
    } else if i == 24 {
        'Y'
    } else {
        'Z'
    }
}

/// The one-letter string keying the group at position `i`.
pub fn letter_str(i: usize) -> (r: &'static str)
    requires
        i < 26,
    ensures
        r@ =~= seq![letter_char(i as int)],
{
    let r: &'static str = match i {
        0 => "A",
        1 => "B",
        2 => "C",
        3 => "D",
        4 => "E",
        5 => "F",
        6 => "G",
        7 => "H",
        8 => "I",
        9 => "J",
        10 => "K",
        11 => "L",
        12 => "M",
        13 => "N",
        14 => "O",
        15 => "P",
        16 => "Q",
        17 => "R",
        18 => "S",
        19 => "T",
        20 => "U",
        21 => "V",
        22 => "W",
        23 => "X",
        24 => "Y",
        _ => "Z",
    };
    proof {
        reveal_strlit("A");
        reveal_strlit("B");
        reveal_strlit("C");
        reveal_strlit("D");
        reveal_strlit("E");
        reveal_strlit("F");
        reveal_strlit("G");
        reveal_strlit("H");
        reveal_strlit("I");
        reveal_strlit("J");
        reveal_strlit("K");
        reveal_strlit("L");
        reveal_strlit("M");
        reveal_strlit("N");
        reveal_strlit("O");
        reveal_strlit("P");
        reveal_strlit("Q");
        reveal_strlit("R");
        reveal_strlit("S");
        reveal_strlit("T");
        reveal_strlit("U");
        reveal_strlit("V");
        reveal_strlit("W");
        reveal_strlit("X");
        reveal_strlit("Y");
        reveal_strlit("Z");
    }
    r
}

/// `m` is the top-level menu of the given named groups and unclassified
/// items: one lettered entry per group in order, then one numbered leaf per
/// unclassified item, numbered from 1.
pub open spec fn is_top_level_of(
    m: Seq<MenuItem>,
    named: Seq<GroupEntry>,
    unclassified: Seq<Seq<char>>,
) -> bool {
    &&& m.len() == named.len() + unclassified.len()
    &&& forall|i: int|
        0 <= i < named.len() ==> (#[trigger] m[i].key)@ == seq![letter_char(i)]
            && m[i].entry.is_group_named(named[i].name@)
    &&& forall|i: int|
        named.len() <= i < m.len() ==> (#[trigger] m[i].key)@ == dec_digits(
            (i - named.len() + 1) as nat,
        ) && m[i].entry.is_leaf_of(None, unclassified[i - named.len()])
}

/// `m` is the sub-level of the group called `group` with the given items:
/// one leaf per item in order, numbered from 1.
pub open spec fn is_sub_level_of(m: Seq<MenuItem>, group: Seq<char>, items: Seq<Seq<char>>) -> bool {
    &&& m.len() == items.len()
    &&& forall|j: int|
        0 <= j < items.len() ==> (#[trigger] m[j].key)@ == dec_digits((j + 1) as nat)
            && m[j].entry.is_leaf_of(Some(group), items[j])
}

/// Builds the top-level menu of a grouping, or reports that the 26 letters
/// do not suffice for its named groups.
pub fn build_top_level(groups: &Groups) -> (r: Result<MenuLevel, MenuError>)
    ensures
        match r {
            Ok(m) => groups.named@.len() <= 26 && is_top_level_of(
                m.items@,
                groups.named@,
                groups.unclassified.deep_view(),
            ),
            Err(e) => e == MenuError::TooManyGroups && groups.named@.len() > 26,
        },
{
    if groups.named.len() > 26 {
        return Err(MenuError::TooManyGroups);
    }
    let mut items: Vec<MenuItem> = Vec::new();
    let mut i: usize = 0;
    while i < groups.named.len()
        invariant
            i <= groups.named@.len() <= 26,
            items@.len() == i,
            forall|q: int|
                0 <= q < i ==> (#[trigger] items@[q].key)@ == seq![letter_char(q)]
                    && items@[q].entry.is_group_named(groups.named@[q].name@),
        decreases groups.named@.len() - i,
    {
        let key = String::from_str(letter_str(i));
        let name = groups.named[i].name.clone();
        items.push(MenuItem { key, entry: MenuEntry::Group { name } });
        i = i + 1;
    }
    let ghost n_named = groups.named@.len();
    let mut j: usize = 0;
    while j < groups.unclassified.len()
        invariant
            j <= groups.unclassified@.len(),
            items@.len() == n_named + j,
            n_named == groups.named@.len(),
            forall|q: int|
                0 <= q < n_named ==> (#[trigger] items@[q].key)@ == seq![letter_char(q)]
                    && items@[q].entry.is_group_named(groups.named@[q].name@),
            forall|q: int|
                n_named <= q < n_named + j ==> (#[trigger] items@[q].key)@ == dec_digits(
                    (q - n_named + 1) as nat,
                ) && items@[q].entry.is_leaf_of(
                    None,
                    groups.unclassified.deep_view()[q - n_named],
                ),
        decreases groups.unclassified@.len() - j,
    {
        let key = usize_to_string(j + 1);
        let desc = groups.unclassified[j].clone();
        items.push(MenuItem { key, entry: MenuEntry::Leaf { group: None, desc } });
        j = j + 1;
    }
    Ok(MenuLevel { items })
}

/// Builds the sub-level shown after descending into a group.
pub fn build_sub_level(group: &String, items: &Vec<String>) -> (m: MenuLevel)
    ensures
        is_sub_level_of(m.items@, group@, items.deep_view()),
{
    let mut level: Vec<MenuItem> = Vec::new();
    let mut j: usize = 0;
    while j < items.len()
        invariant
            j <= items@.len(),
            level@.len() == j,
            forall|q: int|
                0 <= q < j ==> (#[trigger] level@[q].key)@ == dec_digits((q + 1) as nat)
                    && level@[q].entry.is_leaf_of(Some(group@), items.deep_view()[q]),
        decreases items@.len() - j,
    {
        let key = usize_to_string(j + 1);
        let desc = items[j].clone();
        let entry_group = Some(group.clone());
        proof {
            assert(entry_group.deep_view() == Some(group@));
        }
        level.push(MenuItem { key, entry: MenuEntry::Leaf { group: entry_group, desc } });
        j = j + 1;
    }
    MenuLevel { items: level }
}

/// No two keys of one level are the same string.
pub open spec fn keys_unique(m: Seq<MenuItem>) -> bool {
    forall|i: int, j: int|
        0 <= i < j < m.len() ==> (#[trigger] m[i].key)@ != (#[trigger] m[j].key)@
}

/// The keys of a top-level menu are pairwise distinct: the letters differ
/// among themselves, the numbers differ among themselves, and a letter key
/// never equals a number key.
pub proof fn lemma_top_level_keys_unique(
    m: Seq<MenuItem>,
    named: Seq<GroupEntry>,
    unclassified: Seq<Seq<char>>,
)
    requires
        named.len() <= 26,
        is_top_level_of(m, named, unclassified),
    ensures
        keys_unique(m),
{
    let n = named.len() as int;
    assert forall|i: int, j: int| 0 <= i < j < m.len() implies (#[trigger] m[i].key)@ != (
    #[trigger] m[j].key)@ by {
        if i < n && j < n {
            assert(seq![letter_char(i)][0] == letter_char(i));
            assert(seq![letter_char(j)][0] == letter_char(j));
        } else if i < n && j >= n {
            lemma_dec_digits_shape((j - n + 1) as nat);
            assert(seq![letter_char(i)][0] == letter_char(i));
            assert(!is_digit(letter_char(i)));
            assert(is_digit(dec_digits((j - n + 1) as nat)[0]));
        } else {
            if m[i].key@ == m[j].key@ {
                lemma_dec_digits_injective((i - n + 1) as nat, (j - n + 1) as nat);
            }
        }
    }
}

/// The keys of a sub-level are pairwise distinct.
pub proof fn lemma_sub_level_keys_unique(m: Seq<MenuItem>, group: Seq<char>, items: Seq<Seq<char>>)
    requires
        is_sub_level_of(m, group, items),
    ensures
        keys_unique(m),
{
    assert forall|i: int, j: int| 0 <= i < j < m.len() implies (#[trigger] m[i].key)@ != (
    #[trigger] m[j].key)@ by {
        if m[i].key@ == m[j].key@ {
            lemma_dec_digits_injective((i + 1) as nat, (j + 1) as nat);
        }
    }
}

/// In a top-level menu, the unclassified leaves come after every lettered
/// group entry, wherever the sentinel bucket would sort by name.
pub proof fn lemma_unclassified_last(
    m: Seq<MenuItem>,
    named: Seq<GroupEntry>,
    unclassified: Seq<Seq<char>>,
)
    requires
        is_top_level_of(m, named, unclassified),
    ensures
        forall|i: int, j: int|
            0 <= i < m.len() && 0 <= j < m.len() && (#[trigger] m[i].entry) is Group && (
            #[trigger] m[j].entry) is Leaf ==> i < j,
{
    let n = named.len() as int;
    assert forall|i: int, j: int|
        0 <= i < m.len() && 0 <= j < m.len() && (#[trigger] m[i].entry) is Group && (
        #[trigger] m[j].entry) is Leaf implies i < j by {
        assert(m[i].key@ == m[i].key@);
        assert(m[j].key@ == m[j].key@);
        assert(i < n);
        assert(j >= n);
    }
}

/// Rebuilding a sub-level from the same group and item sequence yields the
/// same key-to-value mapping, entry by entry.
pub proof fn lemma_sub_level_deterministic(
    m1: Seq<MenuItem>,
    m2: Seq<MenuItem>,
    group: Seq<char>,
    items: Seq<Seq<char>>,
)
    requires
        is_sub_level_of(m1, group, items),
        is_sub_level_of(m2, group, items),
    ensures
        m1.len() == m2.len(),
        forall|j: int|
            0 <= j < m1.len() ==> (#[trigger] m1[j].key)@ == (#[trigger] m2[j].key)@,
        forall|j: int|
            0 <= j < m1.len() ==> (#[trigger] m1[j].entry).is_leaf_of(Some(group), items[j]) && (
            #[trigger] m2[j].entry).is_leaf_of(Some(group), items[j]),
{
    assert forall|j: int|
        0 <= j < m1.len() implies (#[trigger] m1[j].entry).is_leaf_of(Some(group), items[j]) && (
        #[trigger] m2[j].entry).is_leaf_of(Some(group), items[j]) by {
        assert(m1[j].key@ == m1[j].key@);
        assert(m2[j].key@ == m2[j].key@);
    }
}

/// Rebuilding the top level from the same grouping yields the same
/// key-to-value mapping, entry by entry.
pub proof fn lemma_top_level_deterministic(
    m1: Seq<MenuItem>,
    m2: Seq<MenuItem>,
    named: Seq<GroupEntry>,
    unclassified: Seq<Seq<char>>,
)
    requires
        is_top_level_of(m1, named, unclassified),
        is_top_level_of(m2, named, unclassified),
    ensures
        m1.len() == m2.len(),
        forall|j: int|
            0 <= j < m1.len() ==> (#[trigger] m1[j].key)@ == (#[trigger] m2[j].key)@,
{
    let n = named.len() as int;
    assert forall|j: int| 0 <= j < m1.len() implies (#[trigger] m1[j].key)@ == (
    #[trigger] m2[j].key)@ by {
        if j < n {
        } else {
            assert(m1[j].key@ == dec_digits((j - n + 1) as nat));
            assert(m2[j].key@ == dec_digits((j - n + 1) as nat));
        }
    }
}

} // verus!
