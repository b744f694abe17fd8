//! How the views answer what the user does: to a path of the list of
//! changed paths, and to the fields that commit or create a branch.
use crate::common::{DiffKey, RepoAction};
use crate::text::{trim, trimmed};
use vstd::prelude::*;

verus! {

/// Whether `selected` holds `key`.
pub open spec fn holds_key(selected: Option<DiffKey>, key: DiffKey) -> bool {
    selected matches Some(k) && k.path@ == key.path@ && k.area == key.area
}

/// The answer to input on one listed path. A confirmed path (a double click,
/// or Enter or Space while it has the focus) is added or restored, and then
/// no path stays selected. A plain click selects the path, or clears the
/// selection where the path was the one selected. Without input nothing
/// changes.
pub fn answer_path_input(
    selected: &mut Option<DiffKey>,
    key: &DiffKey,
    confirmed: bool,
    clicked: bool,
) -> (r: Option<RepoAction>)
    ensures
        confirmed ==> (r matches Some(RepoAction::AddOrRestore(k)) && k.path@ == key.path@
            && k.area == key.area),
        confirmed ==> *final(selected) is None,
        !confirmed ==> r is None,
        !confirmed && clicked && holds_key(*old(selected), *key) ==> *final(selected) is None,
        !confirmed && clicked && !holds_key(*old(selected), *key) ==> holds_key(
            *final(selected),
            *key,
        ),
        !confirmed && !clicked ==> *final(selected) == *old(selected),
{
    if confirmed {
        *selected = None;
        return Some(RepoAction::AddOrRestore(DiffKey { path: key.path.clone(), area: key.area }));
    }
    if clicked {
        let was_selected = match selected {
            Some(k) => k.path == key.path && k.area == key.area,
            None => false,
        };
        if was_selected {
            *selected = None;
        } else {
            *selected = Some(DiffKey { path: key.path.clone(), area: key.area });
        }
    }
    None
}

/// Whether a text field holds more than whitespace.
pub fn has_text(text: &str) -> (b: bool)
    ensures
        b == (trim(text@).len() > 0),
{
    let t = trimmed(text);
    !t.as_str().is_empty()
}

/// The text a field submits: where it held more than whitespace when the
/// frame began (`provided`) and the user confirmed it (the button, or
/// Enter), its text is taken out of it; else nothing is submitted and the
/// field stays as it was.
fn take_submitted(text: &mut Option<String>, provided: bool, confirmed: bool) -> (r: Option<String>)
    ensures
        provided && confirmed ==> r == *old(text) && *final(text) is None,
        !(provided && confirmed) ==> r is None && *final(text) == *old(text),
{
    if provided && confirmed {
        text.take()
    } else {
        None
    }
}

/// The answer to the commit fields: where the subject held more than
/// whitespace when the frame began and the user confirmed it, the subject and
/// the body are taken out of their fields and committed together, no path
/// stays selected and the body field is hidden. Else nothing changes.
pub fn commit_request(
    subject: &mut Option<String>,
    body: &mut Option<String>,
    selected: &mut Option<DiffKey>,
    show_body: &mut bool,
    provided: bool,
    confirmed: bool,
) -> (r: Option<RepoAction>)
    ensures
        provided && confirmed && *old(subject) is Some ==> r == Some(
            RepoAction::Commit((*old(subject))->0, *old(body)),
        ) && *final(subject) is None && *final(body) is None && *final(selected) is None
            && !*final(show_body),
        !(provided && confirmed && *old(subject) is Some) ==> r is None && *final(subject)
            == *old(subject) && *final(body) == *old(body) && *final(selected) == *old(selected)
            && *final(show_body) == *old(show_body),
{
    match take_submitted(subject, provided, confirmed) {
        Some(s) => {
            let b = body.take();
            *selected = None;
            *show_body = false;
            Some(RepoAction::Commit(s, b))
        },
        None => None,
    }
}

/// The answer to the field that names a new branch: where the name held more
/// than whitespace when the frame began and the user confirmed it, the name is
/// taken out of the field and the branch created. Else nothing changes.
pub fn create_request(name: &mut Option<String>, provided: bool, confirmed: bool) -> (r: Option<
    RepoAction,
>)
    ensures
        provided && confirmed && *old(name) is Some ==> r == Some(RepoAction::Create((*old(name))->0))
            && *final(name) is None,
        !(provided && confirmed && *old(name) is Some) ==> r is None && *final(name) == *old(name),
{
    match take_submitted(name, provided, confirmed) {
        Some(n) => Some(RepoAction::Create(n)),
        None => None,
    }
}

} // verus!
