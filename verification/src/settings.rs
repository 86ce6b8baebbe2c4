//! Settings navigation: page, group and item descriptors, the naming rules
//! of pages and groups, and when a controlled selection is applied.
use vstd::prelude::*;
use crate::components::Orientation;
use crate::native::{texts, first_position, declares};
use crate::text::{byte_len, bytes_at_most, join2, same_text};

verus! {

broadcast use vstd::string::group_string_axioms;

#[derive(Debug)]
pub struct SettingPageProps {
    pub name: String,
    pub title: String,
    pub description: Option<String>,
    pub default_open: bool,
    pub resettable: bool,
}

/// The default of `resettable`: pages can be reset unless they say otherwise.
pub fn yes() -> (r: bool)
    ensures
        r,
{
    true
}

#[derive(Debug)]
pub struct SettingGroupProps {
    pub name: String,
    pub title: Option<String>,
    pub description: Option<String>,
}

#[derive(Debug)]
pub struct SettingItemProps {
    pub title: String,
    pub description: Option<String>,
    pub keywords: Vec<String>,
    pub disabled: bool,
    pub orientation: Orientation,
}

#[derive(Clone, Copy, Debug, PartialEq, Eq, Structural)]
pub struct SettingFieldProps {
    pub dirty: bool,
}

impl Default for SettingFieldProps {
    fn default() -> (r: Self)
        ensures
            !r.dirty,
    {
        SettingFieldProps { dirty: false }
    }
}

#[derive(Debug)]
pub struct SettingCustomItemProps {
    pub dirty: bool,
    pub disabled: bool,
    pub keywords: Vec<String>,
}

impl Default for SettingCustomItemProps {
    fn default() -> (r: Self)
        ensures
            !r.dirty,
            !r.disabled,
            r.keywords@.len() == 0,
    {
        SettingCustomItemProps { dirty: false, disabled: false, keywords: Vec::new() }
    }
}

/// A page, and optionally one of its groups.
#[derive(Debug)]
pub struct SettingsSelection {
    pub page: String,
    pub group: Option<String>,
}

/// A selection as plain text.
pub open spec fn selection_view(s: SettingsSelection) -> (Seq<char>, Option<Seq<char>>) {
    (
        s.page@,
        match s.group {
            Some(g) => Some(g@),
            None => None,
        },
    )
}

/// An optional selection as plain text.
pub open spec fn optional_selection_view(s: Option<SettingsSelection>) -> Option<
    (Seq<char>, Option<Seq<char>>),
> {
    match s {
        Some(v) => Some(selection_view(v)),
        None => None,
    }
}

impl SettingsSelection {
    /// Whether two selections address the same page and group.
    pub fn same(&self, other: &SettingsSelection) -> (r: bool)
        ensures
            r == (selection_view(*self) == selection_view(*other)),
    {
        if !same_text(self.page.as_str(), other.page.as_str()) {
            return false;
        }
        match (&self.group, &other.group) {
            (None, None) => true,
            (Some(a), Some(b)) => same_text(a.as_str(), b.as_str()),
            _ => false,
        }
    }
}

/// Reported when the user selects a page or group; `edit_seq` counts the
/// selections made in the view.
#[derive(Debug)]
pub struct SettingsChange {
    pub selection: SettingsSelection,
    pub edit_seq: u32,
}

#[derive(Debug)]
pub struct SettingsSnapshot {
    pub selection: Option<SettingsSelection>,
    pub query: String,
}

/// Page and group names take 1 to 256 bytes.
pub open spec fn setting_name_ok(name: Seq<char>) -> bool {
    1 <= byte_len(name) <= 256
}

pub open spec fn name_message() -> Seq<char> {
    "setting names must contain 1 to 256 bytes"@
}

pub fn valid_name(name: &str) -> (r: Result<(), String>)
    ensures
        match r {
            Ok(()) => setting_name_ok(name@),
            Err(m) => !setting_name_ok(name@) && m@ == name_message(),
        },
{
    proof {
        crate::text::lemma_byte_len_bounds(name@);
    }
    if name.unicode_len() == 0 || !bytes_at_most(name, 256) {
        Err(String::from_str("setting names must contain 1 to 256 bytes"))
    } else {
        Ok(())
    }
}

/// The first problem of a list of names, read in order: a name of the
/// wrong size, or a name that an earlier one already took.
pub open spec fn names_problem(names: Seq<Seq<char>>) -> Option<Seq<char>>
    decreases names.len(),
{
    if names.len() == 0 {
        None
    } else {
        let earlier = names.drop_last();
        match names_problem(earlier) {
            Some(m) => Some(m),
            None => {
                let name = names.last();
                if !setting_name_ok(name) {
                    Some(name_message())
                } else if earlier.contains(name) {
                    Some("duplicate setting name: "@ + name)
                } else {
                    None
                }
            },
        }
    }
}

/// Names that pass are each well sized and used once.
pub proof fn law_accepted_names_are_unique(names: Seq<Seq<char>>)
    requires
        names_problem(names) is None,
    ensures
        forall|i: int| 0 <= i < names.len() ==> setting_name_ok(#[trigger] names[i]),
        forall|i: int, j: int| 0 <= i < j < names.len() ==> #[trigger] names[i] != #[trigger] names[j],
    decreases names.len(),
{
    if names.len() > 0 {
        let earlier = names.drop_last();
        law_accepted_names_are_unique(earlier);
        assert forall|i: int| 0 <= i < names.len() implies setting_name_ok(#[trigger] names[i]) by {
            if i < names.len() - 1 {
                assert(names[i] == earlier[i]);
            }
        }
        assert forall|i: int, j: int| 0 <= i < j < names.len() implies #[trigger] names[i] != #[trigger] names[j] by {
            if j < names.len() - 1 {
                assert(names[i] == earlier[i] && names[j] == earlier[j]);
            } else {
                assert(earlier[i] == names[i]);
                assert(earlier.contains(names[i]));
            }
        }
    }
}

/// Whether `name` occurs among the first `end` names.
fn occurs_before(names: &Vec<String>, end: usize, name: &str) -> (r: bool)
    requires
        end <= names@.len(),
    ensures
        r == texts(names@).take(end as int).contains(name@),
{
    let mut i: usize = 0;
    while i < end
        invariant
            i <= end <= names@.len(),
            forall|j: int| 0 <= j < i ==> #[trigger] texts(names@)[j] != name@,
        decreases end - i,
    {
        if same_text(names[i].as_str(), name) {
            assert(texts(names@).take(end as int)[i as int] == name@);
            return true;
        }
        i = i + 1;
    }
    assert forall|k: int| 0 <= k < end implies #[trigger] texts(names@).take(end as int)[k]
        != name@ by {
        assert(texts(names@).take(end as int)[k] == texts(names@)[k]);
    }
    false
}

/// Checks that every name is well sized and used once.
pub fn unique_names(names: &Vec<String>) -> (r: Result<(), String>)
    ensures
        match r {
            Ok(()) => names_problem(texts(names@)) is None,
            Err(m) => names_problem(texts(names@)) == Some(m@),
        },
{
    let mut i: usize = 0;
    while i < names.len()
        invariant
            i <= names@.len(),
            names_problem(texts(names@).take(i as int)) is None,
        decreases names@.len() - i,
    {
        let ghost prefix = texts(names@).take(i as int + 1);
        proof {
            assert(prefix.drop_last() =~= texts(names@).take(i as int));
            assert(prefix.last() == names@[i as int]@);
        }
        let checked = valid_name(names[i].as_str());
        if let Err(m) = checked {
            proof {
                lemma_problem_persists(texts(names@), i as int + 1);
            }
            return Err(m);
        }
        if occurs_before(names, i, names[i].as_str()) {
            proof {
                lemma_problem_persists(texts(names@), i as int + 1);
            }
            return Err(join2("duplicate setting name: ", names[i].as_str()));
        }
        i = i + 1;
    }
    assert(texts(names@).take(names@.len() as int) =~= texts(names@));
    Ok(())
}

/// A problem found in a prefix is the problem of the whole list.
proof fn lemma_problem_persists(names: Seq<Seq<char>>, k: int)
    requires
        0 <= k <= names.len(),
        names_problem(names.take(k)) is Some,
    ensures
        names_problem(names) == names_problem(names.take(k)),
    decreases names.len() - k,
{
    if k < names.len() {
        assert(names.take(k + 1).drop_last() =~= names.take(k));
        lemma_problem_persists(names, k + 1);
    } else {
        assert(names.take(k) =~= names);
    }
}

/// The names of a list of pages.
pub fn page_names(pages: &Vec<SettingPageProps>) -> (r: Vec<String>)
    ensures
        r@.len() == pages@.len(),
        forall|i: int| 0 <= i < pages@.len() ==> #[trigger] r@[i]@ == pages@[i].name@,
{
    let mut out: Vec<String> = Vec::new();
    let mut i: usize = 0;
    while i < pages.len()
        invariant
            i <= pages@.len(),
            out@.len() == i,
            forall|j: int| 0 <= j < i ==> #[trigger] out@[j]@ == pages@[j].name@,
        decreases pages@.len() - i,
    {
        out.push(String::from_str(pages[i].name.as_str()));
        i = i + 1;
    }
    out
}

/// The names of a list of groups.
pub fn group_names(groups: &Vec<SettingGroupProps>) -> (r: Vec<String>)
    ensures
        r@.len() == groups@.len(),
        forall|i: int| 0 <= i < groups@.len() ==> #[trigger] r@[i]@ == groups@[i].name@,
{
    let mut out: Vec<String> = Vec::new();
    let mut i: usize = 0;
    while i < groups.len()
        invariant
            i <= groups@.len(),
            out@.len() == i,
            forall|j: int| 0 <= j < i ==> #[trigger] out@[j]@ == groups@[j].name@,
        decreases groups@.len() - i,
    {
        out.push(String::from_str(groups[i].name.as_str()));
        i = i + 1;
    }
    out
}

/// A selection's own names are well sized.
pub open spec fn selection_names_problem(s: Option<SettingsSelection>) -> Option<Seq<char>> {
    match s {
        None => None,
        Some(v) => if !setting_name_ok(v.page@) {
            Some(name_message())
        } else {
            match v.group {
                Some(g) => if !setting_name_ok(g@) {
                    Some(name_message())
                } else {
                    None
                },
                None => None,
            }
        },
    }
}

/// Checks the page and group names of a controlled selection.
pub fn validate_selection_names(selection: &Option<SettingsSelection>) -> (r: Result<(), String>)
    ensures
        match r {
            Ok(()) => selection_names_problem(*selection) is None,
            Err(m) => selection_names_problem(*selection) == Some(m@),
        },
{
    if let Some(s) = selection {
        valid_name(s.page.as_str())?;
        if let Some(g) = &s.group {
            valid_name(g.as_str())?;
        }
    }
    Ok(())
}

/// Checks a settings view's pages against its selection. Page names must
/// be unique and well sized, and a selection must address a committed page;
/// when it also names a group, the index of its page is returned so that
/// the page's groups can be checked with `check_selected_group`.
pub fn check_settings_pages(
    selection: &Option<SettingsSelection>,
    pages: &Vec<SettingPageProps>,
) -> (r: Result<Option<usize>, String>)
    ensures
        ({
            let names = pages@.map_values(|p: SettingPageProps| p.name@);
            match r {
                Err(m) => match names_problem(names) {
                    Some(p) => m@ == p,
                    None => selection matches Some(s) && !names.contains(s.page@)
                        && m@ == "selection.page must address a committed page"@,
                },
                Ok(found) => names_problem(names) is None && match *selection {
                    None => found is None,
                    Some(s) => names.contains(s.page@) && match s.group {
                        None => found is None,
                        Some(_) => found matches Some(k) && first_position(names, s.page@, k as int),
                    },
                },
            }
        }),
{
    let ghost names = pages@.map_values(|p: SettingPageProps| p.name@);
    let list = page_names(pages);
    proof {
        assert(texts(list@) =~= names);
    }
    unique_names(&list)?;
    match selection {
        None => Ok(None),
        Some(s) => {
            match crate::native::position_in(&list, s.page.as_str()) {
                None => {
                    proof {
                        if names.contains(s.page@) {
                            let k = choose|k: int| 0 <= k < names.len() && names[k] == s.page@;
                            assert(declares(texts(list@), s.page@));
                        }
                    }
                    Err(String::from_str("selection.page must address a committed page"))
                },
                Some(k) => {
                    assert(names[k as int] == s.page@);
                    match &s.group {
                        None => Ok(None),
                        Some(_) => Ok(Some(k)),
                    }
                },
            }
        },
    }
}

/// Checks that a selected group is among the committed groups of its page.
pub fn check_selected_group(group: &str, groups: &Vec<SettingGroupProps>) -> (r: Result<(), String>)
    ensures
        match r {
            Ok(()) => groups@.map_values(|g: SettingGroupProps| g.name@).contains(group@),
            Err(m) => !groups@.map_values(|g: SettingGroupProps| g.name@).contains(group@)
                && m@ == "selection.group must address a committed group"@,
        },
{
    let ghost names = groups@.map_values(|g: SettingGroupProps| g.name@);
    let list = group_names(groups);
    proof {
        assert(texts(list@) =~= names);
    }
    match crate::native::position_in(&list, group) {
        Some(k) => {
            assert(names[k as int] == group@);
            Ok(())
        },
        None => {
            proof {
                if names.contains(group@) {
                    let k = choose|k: int| 0 <= k < names.len() && names[k] == group@;
                    assert(declares(texts(list@), group@));
                }
            }
            Err(String::from_str("selection.group must address a committed group"))
        },
    }
}

/// A settings page is well named and its groups are uniquely named.
pub fn validate_page(page: &SettingPageProps, groups: &Vec<SettingGroupProps>) -> (r: Result<(), String>)
    ensures
        ({
            let names = groups@.map_values(|g: SettingGroupProps| g.name@);
            match r {
                Ok(()) => setting_name_ok(page.name@) && names_problem(names) is None,
                Err(m) => if !setting_name_ok(page.name@) {
                    m@ == name_message()
                } else {
                    names_problem(names) == Some(m@)
                },
            }
        }),
{
    valid_name(page.name.as_str())?;
    let list = group_names(groups);
    proof {
        assert(texts(list@) =~= groups@.map_values(|g: SettingGroupProps| g.name@));
    }
    unique_names(&list)
}

/// A setting item wraps exactly one field.
pub fn validate_item_content(content_count: usize) -> (r: Result<(), String>)
    ensures
        match r {
            Ok(()) => content_count == 1,
            Err(m) => content_count != 1 && m@ == "SettingItem requires exactly one SettingField"@,
        },
{
    if content_count == 1 {
        Ok(())
    } else {
        Err(String::from_str("SettingItem requires exactly one SettingField"))
    }
}

/// Whether an update of a controlled settings view selects its new
/// `selection`: the props acknowledge every selection the view reported
/// (or acknowledge nothing), the selection or the acknowledgement changed,
/// and a selection is given.
pub open spec fn selection_applies(
    edit_seq: u32,
    old_selection: Option<SettingsSelection>,
    old_ack: Option<u32>,
    selection: Option<SettingsSelection>,
    ack: Option<u32>,
) -> bool {
    &&& match ack {
        None => true,
        Some(a) => a >= edit_seq,
    }
    &&& (optional_selection_view(selection) != optional_selection_view(old_selection)
        || ack != old_ack)
    &&& selection is Some
}

pub fn applies_selection(
    edit_seq: u32,
    old_selection: &Option<SettingsSelection>,
    old_ack: Option<u32>,
    selection: &Option<SettingsSelection>,
    ack: Option<u32>,
) -> (r: bool)
    ensures
        r == selection_applies(edit_seq, *old_selection, old_ack, *selection, ack),
{
    let acknowledged = match ack {
        None => true,
        Some(a) => a >= edit_seq,
    };
    let same = match (selection, old_selection) {
        (None, None) => true,
        (Some(a), Some(b)) => a.same(b),
        _ => false,
    };
    acknowledged && (!same || ack != old_ack) && selection.is_some()
}

impl SettingsChange {
    /// The change reported for the next user selection, numbered after
    /// `edit_seq`; `None` once the sequence is exhausted.
    pub fn next(selection: SettingsSelection, edit_seq: u32) -> (r: Option<SettingsChange>)
        ensures
            match r {
                Some(c) => edit_seq < u32::MAX && c.edit_seq == edit_seq + 1
                    && selection_view(c.selection) == selection_view(selection),
                None => edit_seq == u32::MAX,
            },
    {
        match edit_seq.checked_add(1) {
            Some(next) => Some(SettingsChange { selection, edit_seq: next }),
            None => None,
        }
    }
}

/// A page as the settings view holds it once committed: its key and the
/// names of its groups.
#[derive(Debug)]
pub struct CommittedPage {
    pub key: String,
    pub groups: Vec<String>,
}

/// Whether a committed page is the one a selection addresses.
pub open spec fn addresses(page: CommittedPage, selection: SettingsSelection) -> bool {
    &&& page.key@ == selection.page@
    &&& match selection.group {
        Some(g) => declares(texts(page.groups@), g@),
        None => true,
    }
}

/// A selection sent by command must address a committed page, and a group
/// of that page when it names one.
pub fn check_committed_selection(
    pages: &Vec<CommittedPage>,
    selection: &SettingsSelection,
) -> (r: Result<(), String>)
    ensures
        match r {
            Ok(()) => exists|i: int| 0 <= i < pages@.len() && addresses(#[trigger] pages@[i], *selection),
            Err(m) => (forall|i: int| 0 <= i < pages@.len() ==> !addresses(#[trigger] pages@[i], *selection))
                && m@ == "selection does not address a committed page/group"@,
        },
{
    let mut i: usize = 0;
    while i < pages.len()
        invariant
            i <= pages@.len(),
            forall|j: int| 0 <= j < i ==> !addresses(#[trigger] pages@[j], *selection),
        decreases pages@.len() - i,
    {
        let page = &pages[i];
        if same_text(page.key.as_str(), selection.page.as_str()) {
            let has_group = match &selection.group {
                None => true,
                Some(g) => {
                    let found = crate::native::position_in(&page.groups, g.as_str());
                    proof {
                        if let Some(q) = found {
                            assert(texts(page.groups@)[q as int] == g@);
                        }
                    }
                    found.is_some()
                },
            };
            if has_group {
                return Ok(());
            }
        }
        i = i + 1;
    }
    Err(String::from_str("selection does not address a committed page/group"))
}

} // verus!
