use crate::matches::{
    arg_index, count_id, last_with_id, repo_selector, resolve_repo_given_id, ArgError, Matches, RepoSelector,
};
use crate::order::same_bytes;
use crate::parse::{parse_i32, signed_text};
use vstd::prelude::*;

verus! {

/// A configured repository: its name and its number.
#[derive(Debug)]
pub struct RepoEntry {
    pub name: Vec<u8>,
    pub id: i32,
}

/// The numbers of the configured repositories, in their order.
pub open spec fn ids_of(configs: Seq<RepoEntry>) -> Seq<i32> {
    Seq::new(configs.len(), |i: int| configs[i].id)
}

/// Index of the first configured repository with the name, searched from
/// `i` on.
pub open spec fn name_index(configs: Seq<RepoEntry>, name: Seq<u8>, i: int) -> Option<int>
    decreases configs.len() - i,
{
    if i < 0 || i >= configs.len() {
        None
    } else if configs[i].name@ == name {
        Some(i)
    } else {
        name_index(configs, name, i + 1)
    }
}

/// The configured repository with the name, or `UnknownRepoName`.
pub open spec fn by_name(configs: Seq<RepoEntry>, name: Seq<u8>) -> Result<int, ArgError> {
    match name_index(configs, name, 0) {
        Some(i) => Ok(i),
        None => Err(ArgError::UnknownRepoName),
    }
}

/// The configured repository with the number that the text holds: the last
/// one that has it. The text has to hold a number of 32 bits; one
/// repository has to have the number, and no more than two.
pub open spec fn by_id(configs: Seq<RepoEntry>, text: Seq<u8>) -> Result<int, ArgError> {
    match signed_text(text) {
        Some(n) => if i32::MIN <= n <= i32::MAX {
            let ids = ids_of(configs);
            let count = count_id(ids, n as i32, ids.len() as int);
            if count == 0 {
                Err(ArgError::UnknownRepoId)
            } else if count > 2 {
                Err(ArgError::MultipleConfigs)
            } else {
                match last_with_id(ids, n as i32, ids.len() as int) {
                    Some(i) => Ok(i),
                    None => Err(ArgError::UnknownRepoId),
                }
            }
        } else {
            Err(ArgError::NotANumber)
        },
        None => Err(ArgError::NotANumber),
    }
}

/// The one repository that the command line selects, by name or by number.
pub open spec fn selected(
    matches: Matches,
    configs: Seq<RepoEntry>,
    option_repo_name: Seq<u8>,
    option_repo_id: Seq<u8>,
) -> Result<int, ArgError> {
    match (matches.value(option_repo_name), matches.value(option_repo_id)) {
        (Some(_), Some(_)) => Err(ArgError::BothRepoNameAndId),
        (None, None) => Err(ArgError::NeitherRepoNameNorId),
        (None, Some(id)) => by_id(configs, id),
        (Some(name), None) => by_name(configs, name),
    }
}

/// One of the chosen repositories has the name.
pub open spec fn chosen_name(configs: Seq<RepoEntry>, chosen: Seq<int>, name: Seq<u8>) -> bool {
    exists|j: int| 0 <= j < chosen.len() && configs[#[trigger] chosen[j]].name@ == name
}

/// The chosen repositories with one more, unless one of that name is
/// chosen already.
pub open spec fn with_repo(configs: Seq<RepoEntry>, chosen: Seq<int>, i: int) -> Seq<int> {
    if chosen_name(configs, chosen, configs[i].name@) {
        chosen
    } else {
        chosen.push(i)
    }
}

/// The chosen repositories after those that the numbers from index `k` on
/// select were added, or the first failure.
pub open spec fn add_by_ids(
    configs: Seq<RepoEntry>,
    values: Seq<Vec<u8>>,
    k: int,
    chosen: Seq<int>,
) -> Result<Seq<int>, ArgError>
    decreases values.len() - k,
{
    if k < 0 || k >= values.len() {
        Ok(chosen)
    } else {
        match by_id(configs, values[k]@) {
            Ok(i) => add_by_ids(configs, values, k + 1, with_repo(configs, chosen, i)),
            Err(e) => Err(e),
        }
    }
}

/// The chosen repositories after those that the names from index `k` on
/// select were added, or the first failure.
pub open spec fn add_by_names(
    configs: Seq<RepoEntry>,
    values: Seq<Vec<u8>>,
    k: int,
    chosen: Seq<int>,
) -> Result<Seq<int>, ArgError>
    decreases values.len() - k,
{
    if k < 0 || k >= values.len() {
        Ok(chosen)
    } else {
        match by_name(configs, values[k]@) {
            Ok(i) => add_by_names(configs, values, k + 1, with_repo(configs, chosen, i)),
            Err(e) => Err(e),
        }
    }
}

/// The values of an option; none where the option is absent.
pub open spec fn values_or_none(matches: Matches, name: Seq<u8>) -> Seq<Vec<u8>> {
    match arg_index(matches.args@, name, 0) {
        Some(i) => matches.args@[i].values@,
        None => Seq::empty(),
    }
}

/// The repositories that the command line selects.
///
/// Where exactly one repository is asked for, it is the one that `selected`
/// gives. Else every number and then every name of the command line selects
/// a repository, in the order of the command line; a repository whose name
/// was selected before is left out, and selecting none is a failure.
pub open spec fn selected_repos(
    matches: Matches,
    configs: Seq<RepoEntry>,
    exactly_one: bool,
    option_repo_name: Seq<u8>,
    option_repo_id: Seq<u8>,
) -> Result<Seq<int>, ArgError> {
    if exactly_one {
        match selected(matches, configs, option_repo_name, option_repo_id) {
            Ok(i) => Ok(seq![i]),
            Err(e) => Err(e),
        }
    } else {
        match add_by_ids(configs, values_or_none(matches, option_repo_id), 0, Seq::empty()) {
            Ok(chosen) => match add_by_names(configs, values_or_none(matches, option_repo_name), 0, chosen) {
                Ok(all) => if all.len() == 0 {
                    Err(ArgError::NeitherRepoNameNorId)
                } else {
                    Ok(all)
                },
                Err(e) => Err(e),
            },
            Err(e) => Err(e),
        }
    }
}

/// The indices of a list as integers.
pub open spec fn indices(v: Seq<usize>) -> Seq<int> {
    Seq::new(v.len(), |i: int| v[i] as int)
}

/// Whether a result with an index is the one that was asked for.
pub open spec fn is_index(r: Result<usize, ArgError>, want: Result<int, ArgError>) -> bool {
    match want {
        Ok(i) => r is Ok && r.unwrap() == i,
        Err(e) => r == Err::<usize, ArgError>(e),
    }
}

/// The numbers of the configured repositories.
pub fn repo_ids(configs: &Vec<RepoEntry>) -> (r: Vec<i32>)
    ensures
        r@ == ids_of(configs@),
{
    let mut out: Vec<i32> = Vec::new();
    let mut i: usize = 0;
    while i < configs.len()
        invariant
            i <= configs@.len(),
            out@ == ids_of(configs@).subrange(0, i as int),
        decreases configs@.len() - i,
    {
        out.push(configs[i].id);
        assert(out@ =~= ids_of(configs@).subrange(0, i + 1));
        i += 1;
    }
    assert(out@ =~= ids_of(configs@));
    out
}

/// Finds the configured repository with the name: the index of the first
/// one. Fails with `UnknownRepoName` where there is none.
pub fn resolve_repo_given_name(configs: &Vec<RepoEntry>, name: &[u8]) -> (r: Result<usize, ArgError>)
    ensures
        is_index(r, by_name(configs@, name@)),
        r is Ok ==> r.unwrap() < configs@.len(),
{
    let mut i: usize = 0;
    while i < configs.len()
        invariant
            i <= configs@.len(),
            name_index(configs@, name@, 0) == name_index(configs@, name@, i as int),
        decreases configs@.len() - i,
    {
        if same_bytes(configs[i].name.as_slice(), name) {
            return Ok(i);
        }
        i += 1;
    }
    Err(ArgError::UnknownRepoName)
}

/// Finds the configured repository with the number that the text holds.
pub fn resolve_repo_given_text(configs: &Vec<RepoEntry>, text: &[u8]) -> (r: Result<usize, ArgError>)
    ensures
        is_index(r, by_id(configs@, text@)),
        r is Ok ==> r.unwrap() < configs@.len(),
{
    let id = match parse_i32(text) {
        Some(id) => id,
        None => {
            return Err(ArgError::NotANumber);
        },
    };
    let ids = repo_ids(configs);
    proof {
        lemma_last_with_id(ids@, id, ids@.len() as int);
    }
    resolve_repo_given_id(&ids, id)
}

/// The last index with the number lies in the list, and there is one
/// exactly where the number is counted.
proof fn lemma_last_with_id(ids: Seq<i32>, id: i32, n: int)
    requires
        0 <= n <= ids.len(),
    ensures
        last_with_id(ids, id, n) is Some <==> count_id(ids, id, n) > 0,
        last_with_id(ids, id, n) matches Some(i) ==> 0 <= i < n,
    decreases n,
{
    if n > 0 {
        lemma_last_with_id(ids, id, n - 1);
    }
}

/// Finds the one repository that the command line selects: by the value of
/// the option for the name, or by that of the option for the number. Fails
/// where both are given or neither is, where the number is none, and where
/// no configured repository, or more than two, fit.
pub fn resolve_repo(
    matches: &Matches,
    configs: &Vec<RepoEntry>,
    option_repo_name: &[u8],
    option_repo_id: &[u8],
) -> (r: Result<usize, ArgError>)
    ensures
        is_index(r, selected(*matches, configs@, option_repo_name@, option_repo_id@)),
        r is Ok ==> r.unwrap() < configs@.len(),
{
    match repo_selector(matches, option_repo_name, option_repo_id) {
        Err(e) => Err(e),
        Ok(RepoSelector::ById(id)) => resolve_repo_given_text(configs, id.as_slice()),
        Ok(RepoSelector::ByName(name)) => resolve_repo_given_name(configs, name.as_slice()),
    }
}

/// Tells whether one of the chosen repositories has the name.
fn has_chosen_name(configs: &Vec<RepoEntry>, chosen: &Vec<usize>, name: &[u8]) -> (r: bool)
    requires
        forall|j: int| 0 <= j < chosen@.len() ==> (#[trigger] chosen@[j]) < configs@.len(),
    ensures
        r == chosen_name(configs@, indices(chosen@), name@),
{
    let mut j: usize = 0;
    while j < chosen.len()
        invariant
            j <= chosen@.len(),
            forall|j: int| 0 <= j < chosen@.len() ==> (#[trigger] chosen@[j]) < configs@.len(),
            forall|k: int| 0 <= k < j ==> configs@[#[trigger] indices(chosen@)[k]].name@ != name@,
        decreases chosen@.len() - j,
    {
        if same_bytes(configs[chosen[j]].name.as_slice(), name) {
            assert(configs@[indices(chosen@)[j as int]].name@ == name@);
            return true;
        }
        j += 1;
    }
    false
}

/// Adds a repository to the chosen ones, unless one of its name is there.
fn choose_repo(configs: &Vec<RepoEntry>, chosen: &mut Vec<usize>, i: usize)
    requires
        i < configs@.len(),
        forall|j: int| 0 <= j < old(chosen)@.len() ==> (#[trigger] old(chosen)@[j]) < configs@.len(),
    ensures
        indices(final(chosen)@) == with_repo(configs@, indices(old(chosen)@), i as int),
        forall|j: int| 0 <= j < final(chosen)@.len() ==> (#[trigger] final(chosen)@[j]) < configs@.len(),
{
    if !has_chosen_name(configs, chosen, configs[i].name.as_slice()) {
        chosen.push(i);
        assert(indices(chosen@) =~= indices(old(chosen)@).push(i as int));
    }
}

/// Finds the repositories that the command line selects: see
/// `selected_repos`. Each index lies in the list of configured repositories.
pub fn resolve_repos_from_args(
    matches: &Matches,
    configs: &Vec<RepoEntry>,
    exactly_one: bool,
    option_repo_name: &[u8],
    option_repo_id: &[u8],
) -> (r: Result<Vec<usize>, ArgError>)
    ensures
        match selected_repos(*matches, configs@, exactly_one, option_repo_name@, option_repo_id@) {
            Ok(all) => r is Ok && indices(r.unwrap()@) == all,
            Err(e) => r == Err::<Vec<usize>, ArgError>(e),
        },
        r is Ok ==> forall|j: int| 0 <= j < r.unwrap()@.len() ==> (#[trigger] r.unwrap()@[j]) < configs@.len(),
{
    let mut chosen: Vec<usize> = Vec::new();
    if exactly_one {
        return match resolve_repo(matches, configs, option_repo_name, option_repo_id) {
            Ok(i) => {
                chosen.push(i);
                assert(indices(chosen@) =~= seq![i as int]);
                Ok(chosen)
            },
            Err(e) => Err(e),
        };
    }
    let ghost ids = values_or_none(*matches, option_repo_id@);
    let ghost names = values_or_none(*matches, option_repo_name@);
    assert(indices(chosen@) =~= Seq::<int>::empty());
    if let Some(values) = matches.values_of(option_repo_id) {
        let mut k: usize = 0;
        while k < values.len()
            invariant
                k <= values@.len(),
                values@ == ids,
                !exactly_one,
                ids == values_or_none(*matches, option_repo_id@),
                forall|j: int| 0 <= j < chosen@.len() ==> (#[trigger] chosen@[j]) < configs@.len(),
                add_by_ids(configs@, ids, 0, Seq::empty()) == add_by_ids(
                    configs@,
                    ids,
                    k as int,
                    indices(chosen@),
                ),
            decreases values@.len() - k,
        {
            match resolve_repo_given_text(configs, values[k].as_slice()) {
                Ok(i) => {
                    choose_repo(configs, &mut chosen, i);
                },
                Err(e) => {
                    return Err(e);
                },
            }
            k += 1;
        }
    }
    let ghost after_ids = indices(chosen@);
    assert(add_by_ids(configs@, ids, 0, Seq::empty()) == Ok::<Seq<int>, ArgError>(after_ids));
    if let Some(values) = matches.values_of(option_repo_name) {
        let mut k: usize = 0;
        while k < values.len()
            invariant
                k <= values@.len(),
                values@ == names,
                !exactly_one,
                ids == values_or_none(*matches, option_repo_id@),
                names == values_or_none(*matches, option_repo_name@),
                add_by_ids(configs@, ids, 0, Seq::empty()) == Ok::<Seq<int>, ArgError>(after_ids),
                forall|j: int| 0 <= j < chosen@.len() ==> (#[trigger] chosen@[j]) < configs@.len(),
                add_by_names(configs@, names, 0, after_ids) == add_by_names(
                    configs@,
                    names,
                    k as int,
                    indices(chosen@),
                ),
            decreases values@.len() - k,
        {
            match resolve_repo_given_name(configs, values[k].as_slice()) {
                Ok(i) => {
                    choose_repo(configs, &mut chosen, i);
                },
                Err(e) => {
                    return Err(e);
                },
            }
            k += 1;
        }
    }
    assert(add_by_names(configs@, names, 0, after_ids) == Ok::<Seq<int>, ArgError>(indices(chosen@)));
    if chosen.len() == 0 {
        Err(ArgError::NeitherRepoNameNorId)
    } else {
        Ok(chosen)
    }
}

/// Tells whether the command line names a source repository, by either
/// option.
pub fn names_source_repo(matches: &Matches, option_repo_name: &[u8], option_repo_id: &[u8]) -> (r: bool)
    ensures
        r == (matches.present(option_repo_name@) || matches.present(option_repo_id@)),
{
    matches.is_present(option_repo_name) || matches.is_present(option_repo_id)
}

/// The source repository that the command line selects, if it names one.
pub fn get_source_repo_id_opt(
    matches: &Matches,
    configs: &Vec<RepoEntry>,
    option_repo_name: &[u8],
    option_repo_id: &[u8],
) -> (r: Result<Option<i32>, ArgError>)
    ensures
        !(matches.present(option_repo_name@) || matches.present(option_repo_id@)) ==> r == Ok::<
            Option<i32>,
            ArgError,
        >(None),
        matches.present(option_repo_name@) || matches.present(option_repo_id@) ==> match selected(
            *matches,
            configs@,
            option_repo_name@,
            option_repo_id@,
        ) {
            Ok(i) => r == Ok::<Option<i32>, ArgError>(Some(configs@[i].id)),
            Err(e) => r == Err::<Option<i32>, ArgError>(e),
        },
{
    if names_source_repo(matches, option_repo_name, option_repo_id) {
        match resolve_repo(matches, configs, option_repo_name, option_repo_id) {
            Ok(i) => Ok(Some(configs[i].id)),
            Err(e) => Err(e),
        }
    } else {
        Ok(None)
    }
}

} // verus!
