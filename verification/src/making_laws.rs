//! What holds of making a store and of upgrading one.
use crate::commands::init::{self, LayoutEntry, LayoutFacts, PlaceFacts, VaultFacts};
use crate::config_laws;
use crate::discovery::{self, Look};
use crate::error::{self, ErrorModel, IssueModel, IssueSeverity, ValidationIssue};
use crate::order;
use crate::paths;
use crate::text;
use crate::upgrade::{self, SchemaFound, UpgradeStatus};
use vstd::prelude::*;

verus! {

/// Whether none of the issues is an error.
pub open spec fn harmless(issues: Seq<ValidationIssue>) -> bool {
    forall|i: int| 0 <= i < issues.len() ==> (#[trigger] issues[i]).severity != IssueSeverity::Error
}

/// An upgrade leads to the second version. It is done to a store of an earlier one that has a
/// schema that is known and no errors; one that was left half way, with the schema of the
/// second, is resumed; a dry run only says so. A store of the second version is left alone.
/// Everything else is refused.
pub proof fn upgrades_lead_to_the_second_version(
    r: Result<UpgradeStatus, ErrorModel>,
    to: u32,
    version: u32,
    found: SchemaFound,
    dry_run: bool,
    issues: Seq<ValidationIssue>,
)
    requires
        upgrade::is_upgrade(r, to, version, found, dry_run, issues),
    ensures
        r is Ok ==> to == 2 && found != SchemaFound::Neither,
        r == Ok::<UpgradeStatus, ErrorModel>(UpgradeStatus::AlreadyCurrent) <==> to == 2 && version
            == 2 && found == SchemaFound::Second,
        r == Ok::<UpgradeStatus, ErrorModel>(UpgradeStatus::Planned) <==> to == 2 && version != 2
            && found != SchemaFound::Neither && harmless(issues) && dry_run,
        r == Ok::<UpgradeStatus, ErrorModel>(UpgradeStatus::Upgraded) <==> to == 2 && version != 2
            && found == SchemaFound::First && harmless(issues) && !dry_run,
        r == Ok::<UpgradeStatus, ErrorModel>(UpgradeStatus::Resumed) <==> to == 2 && version != 2
            && found == SchemaFound::Second && harmless(issues) && !dry_run,
{
    let models = error::issue_models(issues);
    lemma_errors(models);
    assert forall|i: int| 0 <= i < issues.len() implies (#[trigger] issues[i]).severity
        == models[i].severity by {}
    if harmless(issues) {
        assert forall|i: int| 0 <= i < models.len() implies (#[trigger] models[i]).severity
            != IssueSeverity::Error by {
            assert(issues[i].severity == models[i].severity);
        }
    }
}

proof fn lemma_errors(issues: Seq<IssueModel>)
    ensures
        error::error_count(issues) == 0 <==> forall|i: int|
            0 <= i < issues.len() ==> (#[trigger] issues[i]).severity != IssueSeverity::Error,
    decreases issues.len(),
{
    if issues.len() > 0 {
        let rest = issues.drop_last();
        lemma_errors(rest);
        if error::error_count(issues) == 0 {
            assert forall|i: int| 0 <= i < issues.len() implies (#[trigger] issues[i]).severity
                != IssueSeverity::Error by {
                if i < rest.len() {
                    assert(issues[i] == rest[i]);
                }
            }
        }
        if forall|i: int|
            0 <= i < issues.len() ==> (#[trigger] issues[i]).severity != IssueSeverity::Error {
            assert forall|i: int| 0 <= i < rest.len() implies (#[trigger] rest[i]).severity
                != IssueSeverity::Error by {
                assert(issues[i] == rest[i]);
            }
            assert(issues[issues.len() - 1].severity != IssueSeverity::Error);
        }
    }
}

/// Before an upgrade nothing is passed over: each issue stands in the way, but for another
/// schema where the upgrade was left half way; and so does each task with a property named
/// `parent`. Nothing else does.
pub proof fn upgrades_pass_over_nothing(
    issues: Seq<IssueModel>,
    half_way: bool,
    records: Seq<(String, Vec<u8>)>,
)
    ensures
        forall|i: int|
            0 <= i < issues.len() && !(half_way && (#[trigger] issues[i]).code
                == "schema_version_mismatch"@) ==> upgrade::preflight(
                issues,
                half_way,
                records,
            ).contains(issues[i]),
        forall|k: int|
            0 <= k < records.len() && upgrade::has_parent_key((#[trigger] records[k]).1@) ==> exists|
                m: int,
            |
                0 <= m < upgrade::preflight(issues, half_way, records).len()
                    && (#[trigger] upgrade::preflight(issues, half_way, records)[m]).path == Some(
                    records[k].0@,
                ) && upgrade::preflight(issues, half_way, records)[m].severity
                    == IssueSeverity::Error,
        forall|m: int|
            0 <= m < upgrade::preflight(issues, half_way, records).len() ==> {
                let issue = #[trigger] upgrade::preflight(issues, half_way, records)[m];
                ||| issues.contains(issue) && !(half_way && issue.code
                    == "schema_version_mismatch"@)
                ||| exists|k: int|
                    0 <= k < records.len() && upgrade::has_parent_key((#[trigger] records[k]).1@)
                        && issue.path == Some(records[k].0@)
            },
{
    let all = upgrade::preflight(issues, half_way, records);
    let a = upgrade::standing(issues, half_way, issues.len() as int);
    let b = upgrade::parent_key_issues(records, records.len() as int);
    lemma_standing(issues, half_way, issues.len() as int);
    lemma_parent_keys(records, records.len() as int);
    assert forall|i: int|
        0 <= i < issues.len() && !(half_way && (#[trigger] issues[i]).code
            == "schema_version_mismatch"@) implies all.contains(issues[i]) by {
        let m = choose|m: int| 0 <= m < a.len() && a[m] == issues[i];
        assert(all[m] == a[m]);
    }
    assert forall|k: int|
        0 <= k < records.len() && upgrade::has_parent_key((#[trigger] records[k]).1@) implies exists|
        m: int,
    |
        0 <= m < all.len() && (#[trigger] all[m]).path == Some(records[k].0@) && all[m].severity
            == IssueSeverity::Error by {
        let m = choose|m: int|
            0 <= m < b.len() && (#[trigger] b[m]).path == Some(records[k].0@) && b[m].severity
                == IssueSeverity::Error;
        assert(all[a.len() + m] == b[m]);
    }
    assert forall|m: int| 0 <= m < all.len() implies {
        let issue = #[trigger] all[m];
        ||| issues.contains(issue) && !(half_way && issue.code == "schema_version_mismatch"@)
        ||| exists|k: int|
            0 <= k < records.len() && upgrade::has_parent_key((#[trigger] records[k]).1@)
                && issue.path == Some(records[k].0@)
    } by {
        if m < a.len() {
            assert(all[m] == a[m]);
        } else {
            assert(all[m] == b[m - a.len()]);
        }
    }
}

proof fn lemma_standing(issues: Seq<IssueModel>, half_way: bool, n: int)
    requires
        0 <= n <= issues.len(),
    ensures
        forall|i: int|
            0 <= i < n && !(half_way && (#[trigger] issues[i]).code == "schema_version_mismatch"@)
                ==> upgrade::standing(issues, half_way, n).contains(issues[i]),
        forall|m: int|
            0 <= m < upgrade::standing(issues, half_way, n).len() ==> issues.contains(
                #[trigger] upgrade::standing(issues, half_way, n)[m],
            ) && !(half_way && upgrade::standing(issues, half_way, n)[m].code
                == "schema_version_mismatch"@),
    decreases n,
{
    if n > 0 {
        lemma_standing(issues, half_way, n - 1);
        let before = upgrade::standing(issues, half_way, n - 1);
        let now = upgrade::standing(issues, half_way, n);
        assert(issues.contains(issues[n - 1]));
        if !(half_way && issues[n - 1].code == "schema_version_mismatch"@) {
            assert(now == before.push(issues[n - 1]));
            assert(now[before.len() as int] == issues[n - 1]);
            assert forall|i: int|
                0 <= i < n && !(half_way && (#[trigger] issues[i]).code
                    == "schema_version_mismatch"@) implies now.contains(issues[i]) by {
                if i < n - 1 {
                    let m = choose|m: int| 0 <= m < before.len() && before[m] == issues[i];
                    assert(now[m] == before[m]);
                }
            }
        }
    }
}

proof fn lemma_parent_keys(records: Seq<(String, Vec<u8>)>, n: int)
    requires
        0 <= n <= records.len(),
    ensures
        forall|k: int|
            0 <= k < n && upgrade::has_parent_key((#[trigger] records[k]).1@) ==> exists|m: int|
                0 <= m < upgrade::parent_key_issues(records, n).len()
                    && (#[trigger] upgrade::parent_key_issues(records, n)[m]).path == Some(
                    records[k].0@,
                ) && upgrade::parent_key_issues(records, n)[m].severity == IssueSeverity::Error,
        forall|m: int|
            0 <= m < upgrade::parent_key_issues(records, n).len() ==> exists|k: int|
                0 <= k < n && upgrade::has_parent_key((#[trigger] records[k]).1@)
                    && (#[trigger] upgrade::parent_key_issues(records, n)[m]).path == Some(
                    records[k].0@,
                ),
    decreases n,
{
    if n > 0 {
        lemma_parent_keys(records, n - 1);
        let before = upgrade::parent_key_issues(records, n - 1);
        let now = upgrade::parent_key_issues(records, n);
        if upgrade::has_parent_key(records[n - 1].1@) {
            assert(now == before.push(upgrade::parent_key_issue(records[n - 1].0@)));
            let last = before.len() as int;
            assert(now[last].path == Some(records[n - 1].0@));
            assert(now[last].severity == IssueSeverity::Error);
            assert forall|k: int|
                0 <= k < n && upgrade::has_parent_key((#[trigger] records[k]).1@) implies exists|
                m: int,
            |
                0 <= m < now.len() && (#[trigger] now[m]).path == Some(records[k].0@)
                    && now[m].severity == IssueSeverity::Error by {
                if k < n - 1 {
                    let m = choose|m: int|
                        0 <= m < before.len() && (#[trigger] before[m]).path == Some(records[k].0@)
                            && before[m].severity == IssueSeverity::Error;
                    assert(now[m] == before[m]);
                }
            }
            assert forall|m: int| 0 <= m < now.len() implies exists|k: int|
                0 <= k < n && upgrade::has_parent_key((#[trigger] records[k]).1@)
                    && (#[trigger] now[m]).path == Some(records[k].0@) by {
                if m < last {
                    assert(now[m] == before[m]);
                } else {
                    assert(records[n - 1] == records[n - 1]);
                }
            }
        }
    }
}

/// Where no root is asked for, the vault is the nearest directory that is marked as one; where
/// none is marked, there is none.
pub proof fn the_nearest_vault_is_meant(current: Seq<char>, facts: VaultFacts)
    ensures
        init::vault_of(None, current, facts) is Ok <==> exists|k: int|
            0 <= k < facts.ancestors@.len() && (#[trigger] facts.ancestors@[k]).1 is Directory,
        forall|k: int|
            0 <= k < facts.ancestors@.len() && (#[trigger] facts.ancestors@[k]).1 is Directory && (
            forall|j: int| 0 <= j < k ==> !((#[trigger] facts.ancestors@[j]).1 is Directory))
                ==> init::vault_of(None, current, facts) == Ok::<Seq<char>, ErrorModel>(
                facts.ancestors@[k].0@,
            ),
{
    lemma_nearest(facts.ancestors@, 0);
}

proof fn lemma_nearest(ancestors: Seq<(String, Look)>, i: int)
    requires
        0 <= i,
    ensures
        init::nearest_vault(ancestors, i) is Some <==> exists|k: int|
            i <= k < ancestors.len() && (#[trigger] ancestors[k]).1 is Directory,
        forall|k: int|
            i <= k < ancestors.len() && (#[trigger] ancestors[k]).1 is Directory && (forall|j: int|
                i <= j < k ==> !((#[trigger] ancestors[j]).1 is Directory))
                ==> init::nearest_vault(ancestors, i) == Some(ancestors[k].0@),
    decreases ancestors.len() - i,
{
    if i < ancestors.len() {
        lemma_nearest(ancestors, i + 1);
        if !(ancestors[i].1 is Directory) {
            if exists|k: int|
                i <= k < ancestors.len() && (#[trigger] ancestors[k]).1 is Directory {
                let k = choose|k: int|
                    i <= k < ancestors.len() && (#[trigger] ancestors[k]).1 is Directory;
                assert(i + 1 <= k);
            }
        }
    }
}

/// A vault that is asked for has to be a directory, and no link to one, that leads somewhere.
pub proof fn vaults_that_are_asked_for_are_directories(
    path: Seq<char>,
    current: Seq<char>,
    facts: VaultFacts,
)
    ensures
        init::vault_of(Some(path), current, facts) is Ok <==> facts.look is Directory
            && facts.resolved is Ok,
        init::vault_of(Some(path), current, facts) matches Ok(vault) ==> vault
            == facts.resolved->Ok_0@,
{
}

/// Following a path, `.` stays where it is, `..` goes back by one name, which cannot be done at
/// the root, and a name goes on by that name.
pub proof fn paths_are_followed_name_by_name(parts: Seq<(int, Seq<char>)>, name: Seq<char>)
    ensures
        init::followed(seq![], 0, seq![]) == Ok::<Seq<Seq<char>>, ErrorModel>(seq![]),
        init::followed(parts, 0, seq![]) is Err ==> init::followed(
            parts.push(paths::part(name)),
            0,
            seq![],
        ) is Err,
        init::followed(parts, 0, seq![]) matches Ok(names) ==> {
            let next = init::followed(parts.push(paths::part(name)), 0, seq![]);
            &&& name == seq!['.'] ==> next == Ok::<Seq<Seq<char>>, ErrorModel>(names)
            &&& name == seq!['.', '.'] && names.len() == 0 ==> next is Err
            &&& name == seq!['.', '.'] && names.len() > 0 ==> next == Ok::<
                Seq<Seq<char>>,
                ErrorModel,
            >(names.drop_last())
            &&& name != seq!['.'] && name != seq!['.', '.'] ==> next == Ok::<
                Seq<Seq<char>>,
                ErrorModel,
            >(names.push(name))
        },
{
    let last = paths::part(name);
    lemma_followed(parts, 0, seq![], last);
    assert(seq!['.'].len() != seq!['.', '.'].len());
    if let Ok(names) = init::followed(parts, 0, seq![]) {
        let one = seq![last];
        assert(one[0] == last);
        reveal_with_fuel(init::followed, 3);
        assert(init::followed(parts.push(last), 0, seq![]) == init::followed(one, 0, names));
    }
}

proof fn lemma_followed(
    parts: Seq<(int, Seq<char>)>,
    i: int,
    names: Seq<Seq<char>>,
    last: (int, Seq<char>),
)
    requires
        0 <= i <= parts.len(),
    ensures
        init::followed(parts.push(last), i, names) == (match init::followed(parts, i, names) {
            Err(e) => Err(e),
            Ok(found) => init::followed(seq![last], 0, found),
        }),
    decreases parts.len() - i,
{
    let longer = parts.push(last);
    if i < parts.len() {
        assert(longer[i] == parts[i]);
        if parts[i].0 == 2 {
            if names.len() > 0 {
                lemma_followed(parts, i + 1, names.drop_last(), last);
            }
        } else if parts[i].0 == 3 {
            lemma_followed(parts, i + 1, names.push(parts[i].1), last);
        } else {
            lemma_followed(parts, i + 1, names, last);
        }
    } else {
        assert(longer[i] == last);
        let one = seq![last];
        assert(one[0] == last);
        reveal_with_fuel(init::followed, 3);
    }
}

/// Whether an entry is one of the directories of a store, itself and no link to one, and empty.
pub open spec fn adoptable(entry: LayoutEntry) -> bool {
    &&& entry.name@ == ".todo"@ || entry.name@ == "Tasks"@ || entry.name@ == "Projects"@
    &&& entry.directory == Ok::<bool, String>(true)
    &&& !entry.symlink
    &&& entry.empty == Ok::<bool, String>(true)
}

/// A directory can become a store where it is none yet, and it is not there, or nothing is in
/// it, or, where that was asked for, nothing but empty directories of a store.
pub proof fn stores_are_made_where_nothing_is_in_the_way(
    r: Result<(), ErrorModel>,
    place: Seq<char>,
    facts: LayoutFacts,
    adopt: bool,
)
    requires
        init::is_layout_check(r, place, facts, adopt),
    ensures
        r is Ok <==> !facts.configured && (!facts.exists || (facts.entries is Ok && (
        facts.entries->Ok_0@.len() == 0 || (adopt && forall|i: int|
            0 <= i < facts.entries->Ok_0@.len() ==> adoptable(
                #[trigger] facts.entries->Ok_0@[i],
            ))))),
{
    if !facts.configured && facts.exists {
        if let Ok(found) = facts.entries {
            let entries = found@;
            if entries.len() > 0 && adopt {
                let sorted = choose|sorted: Seq<LayoutEntry>| #[trigger]
                    order::arranged(entries, sorted) && r == init::check_entries(sorted, 0);
                lemma_entries(sorted, 0);
                let p = choose|p: Seq<int>| #[trigger]
                    order::in_order(entries, p) && sorted == order::reordered(entries, p);
                order::lemma_order_covers(entries, p);
                if r is Ok {
                    assert forall|i: int| 0 <= i < entries.len() implies adoptable(
                        #[trigger] entries[i],
                    ) by {
                        assert(p.contains(i));
                        let k = choose|k: int| 0 <= k < p.len() && p[k] == i;
                        assert(sorted[k] == entries[i]);
                        assert(adoptable(sorted[k]));
                    }
                } else {
                    let k = choose|k: int| 0 <= k < sorted.len() && !adoptable(#[trigger] sorted[k]);
                    assert(sorted[k] == entries[p[k]]);
                    assert(!adoptable(entries[p[k]]));
                }
            }
        }
    }
}

proof fn lemma_entries(entries: Seq<LayoutEntry>, i: int)
    requires
        0 <= i,
    ensures
        init::check_entries(entries, i) is Ok <==> forall|k: int|
            i <= k < entries.len() ==> adoptable(#[trigger] entries[k]),
    decreases entries.len() - i,
{
    if i < entries.len() {
        lemma_entries(entries, i + 1);
        assert(init::check_entry(entries[i]) is Ok <==> adoptable(entries[i]));
    }
}

/// A store is made inside its vault, and links into it begin with its path there: put behind the
/// path of the vault, it is the path of the store.
pub proof fn links_begin_with_the_path_in_the_vault(place: Seq<char>, vault: Seq<char>)
    ensures
        init::link_prefix(place, vault) matches Ok(prefix) ==> paths::parts(place) == paths::parts(
            vault,
        ) + paths::parts(prefix),
        (paths::path_begins(place, vault) && forall|i: int|
            paths::parts(vault).len() <= i < paths::parts(place).len() ==> (
            #[trigger] paths::parts(place)[i]).0 == 3) ==> init::link_prefix(place, vault) is Ok,
        !paths::path_begins(place, vault) ==> init::link_prefix(place, vault) is Err,
{
    let (all, outer) = (paths::parts(place), paths::parts(vault));
    let n = outer.len() as int;
    if paths::path_begins(place, vault) {
        let rest = all.skip(n);
        assert(all =~= all.take(n) + rest);
        if forall|i: int| 0 <= i < rest.len() ==> (#[trigger] rest[i]).0 == 3 {
            let names = rest.map_values(|part: (int, Seq<char>)| part.1);
            reveal_strlit("/");
            assert("/"@ =~= seq!['/']);
            let prefix = text::joined(names, "/"@);
            if rest.len() == 0 {
                assert(prefix =~= Seq::<char>::empty());
                config_laws::lemma_no_parts(prefix);
                assert(paths::parts(prefix) =~= rest);
            } else {
                config_laws::lemma_parts_plain(place);
                assert forall|i: int| 0 <= i < names.len() implies (#[trigger] names[i]).len() > 0
                    && !names[i].contains('/') && names[i] != seq!['.'] && names[i]
                    != seq!['.', '.'] by {
                    assert(rest[i] == all[n + i]);
                    assert(all[n + i].0 == 3);
                }
                assert(config_laws::spells(prefix, names));
                config_laws::lemma_parts(prefix, names);
                assert(paths::parts(prefix) =~= rest);
            }
        } else {
            let i = choose|i: int| 0 <= i < rest.len() && (#[trigger] rest[i]).0 != 3;
            assert(all[n + i] == rest[i]);
        }
        if forall|i: int| n <= i < all.len() ==> (#[trigger] all[i]).0 == 3 {
            assert forall|i: int| 0 <= i < rest.len() implies (#[trigger] rest[i]).0 == 3 by {
                assert(rest[i] == all[n + i]);
            }
        }
    }
}

/// A store that is made lies inside its vault. One that is not there yet will lie where the
/// nearest directory above it that is there leads, under the names that it was to have below
/// that.
pub proof fn stores_lie_where_they_were_asked_for(
    path: Seq<char>,
    current: Seq<char>,
    vault: Seq<char>,
    facts: PlaceFacts,
)
    ensures
        init::store_of(path, current, vault, facts) matches Ok(place) ==> {
            &&& paths::path_begins(place, vault)
            &&& facts.resolved is Ok
            &&& init::names_of(discovery::from_directory(path, current)) is Ok
            &&& facts.exists ==> place == facts.resolved->Ok_0@ && !(facts.look is Symlink)
            &&& !facts.exists ==> {
                let names = init::names_of(discovery::from_directory(path, current))->Ok_0;
                &&& facts.look is Directory
                &&& exists|i: int|
                    0 <= i < names.len() && i < facts.above@.len() && (#[trigger] facts.above@[i])
                        && (forall|j: int| 0 <= j < i ==> !(#[trigger] facts.above@[j]))
                        && text::ends(place, text::joined(names.skip(names.len() - i - 1), "/"@))
                        && text::begins(place, facts.resolved->Ok_0@)
            }
        },
{
    if let Ok(place) = init::store_of(path, current, vault, facts) {
        if !facts.exists {
            let names = init::names_of(discovery::from_directory(path, current))->Ok_0;
            lemma_first_above(facts.above@, 0);
            let i = init::first_above(facts.above@, 0)->0;
            assert(facts.above@[i]);
            let tail = text::joined(names.skip(names.len() - i - 1), "/"@);
            let root = facts.resolved->Ok_0@;
            reveal_strlit("/");
            assert(place.subrange(place.len() - tail.len(), place.len() as int) =~= tail);
            assert(place.subrange(0, root.len() as int) =~= root);
        }
    }
}

proof fn lemma_first_above(above: Seq<bool>, i: int)
    requires
        0 <= i,
    ensures
        init::first_above(above, i) matches Some(k) ==> i <= k < above.len() && above[k] && forall|
            j: int,
        |
            i <= j < k ==> !(#[trigger] above[j]),
    decreases above.len() - i,
{
    if i < above.len() && !above[i] {
        lemma_first_above(above, i + 1);
    }
}

} // verus!
