//! Commands on projects.
use vstd::prelude::*;

use crate::commands::task;
use crate::config::{self, Config, ConfigModel};
use crate::error::{self, Error, ErrorModel};
use crate::frontmatter;
use crate::model::{self, Project, ProjectModel, Task, TaskModel};
use crate::order::{self, Ranked};
use crate::project_laws;
use crate::paths;
use crate::record_laws;
use crate::text;
use crate::yaml;

verus! {

/// A project to be made.
#[derive(Debug)]
pub struct CreateProject {
    pub slug: String,
    pub name: String,
    pub body: String,
}

/// Changes to a project.
#[derive(Debug)]
pub struct EditProject {
    pub name: Option<String>,
    pub body: Option<String>,
}

impl Default for EditProject {
    fn default() -> (r: Self)
        ensures
            r.name is None,
            r.body is None,
    {
        EditProject { name: None, body: None }
    }
}

/// A project as it is shown.
#[derive(Debug)]
pub struct ProjectView {
    pub slug: String,
    pub path: String,
    pub name: String,
    pub body: String,
    pub extra_properties: serde_json::Value,
}

/// A project as it is listed, with the number of times that tasks name it.
#[derive(Debug)]
pub struct ProjectSummary {
    pub project: ProjectView,
    pub referencing_tasks: usize,
}

impl ProjectView {
    /// Whether this is what is shown of a project.
    pub open spec fn shows(self, project: ProjectModel) -> bool {
        let parts = paths::parts(project.path);
        &&& self.slug@ == project.slug
        &&& self.path@ == model::parts_text(parts, parts.len() as int)
        &&& self.name@ == project.name
        &&& self.body@ == project.body
        &&& yaml::json_object(project.extra_properties) == Ok::<Seq<char>, Seq<char>>(
            yaml::json_text(self.extra_properties),
        )
    }

    /// What is shown of a project; an error where its properties have no JSON form.
    pub fn from_project(project: &Project) -> (r: Result<Self, Error>)
        ensures
            match r {
                Ok(view) => view.shows(project@),
                Err(e) => yaml::json_object(project@.extra_properties) is Err && e@
                    == json_error(project@),
            },
    {
        let extra_properties = match yaml::to_json(&project.extra_properties) {
            Ok(value) => value,
            Err(message) => {
                return Err(
                    Error::validation(
                        "extra_property_json_failed",
                        text::join2(
                            "Could not represent project properties as JSON: ",
                            message.as_str(),
                        ).as_str(),
                    ).with_path(project.path.as_str()),
                );
            },
        };
        Ok(
            ProjectView {
                slug: project.slug.clone(),
                path: model::relative_path_string(project.path.as_str()),
                name: project.name.clone(),
                body: project.body.clone(),
                extra_properties,
            },
        )
    }
}

/// The error for properties that have no JSON form.
pub open spec fn json_error(project: ProjectModel) -> ErrorModel {
    ErrorModel::validation(
        "extra_property_json_failed"@,
        "Could not represent project properties as JSON: "@ + yaml::json_object(
            project.extra_properties,
        )->Err_0,
    ).with_path(project.path)
}

/// A project as it is to be written, and its record.
pub open spec fn to_write(r: Result<(Project, Vec<u8>), Error>) -> Result<
    (ProjectModel, Seq<u8>),
    ErrorModel,
> {
    match r {
        Ok((project, bytes)) => Ok((project@, bytes@)),
        Err(e) => Err(e@),
    }
}

impl ProjectModel {
    /// The project and its record.
    pub open spec fn written(self) -> Result<(ProjectModel, Seq<u8>), ErrorModel> {
        match self.serialized() {
            Err(e) => Err(e),
            Ok(bytes) => Ok((self, bytes)),
        }
    }
}

fn write(project: Project) -> (r: Result<(Project, Vec<u8>), Error>)
    ensures
        r matches Ok(done) ==> record_laws::writes_extras(done.0@.extra_properties),
        to_write(r) == project@.written(),
{
    match frontmatter::serialize_project(&project) {
        Ok(bytes) => Ok((project, bytes)),
        Err(e) => Err(e),
    }
}

fn trimmed(s: &str) -> (r: String)
    ensures
        r@ == text::trim(s@),
{
    text::string(&text::trimmed(&text::chars(s)))
}

/// What making a project gives: the project and its record.
pub open spec fn create_outcome(
    slug: Seq<char>,
    name: Seq<char>,
    body: Seq<char>,
    config: ConfigModel,
) -> Result<(ProjectModel, Seq<u8>), ErrorModel> {
    if !model::slug(slug) {
        Err(model::slug_error(slug))
    } else {
        match model::check_name(text::trim(name), "name"@) {
            Err(e) => Err(e),
            Ok(_) => match config::managed(config.projects_directory) {
                Err(e) => Err(e),
                Ok(directory) => (ProjectModel {
                    slug,
                    path: directory + "/"@ + slug + ".md"@,
                    name: text::trim(name),
                    body: model::body(body),
                    extra_properties: seq![],
                }).written(),
            },
        }
    }
}

/// Make a project: the project and its record.
pub fn create(config: &Config, request: &CreateProject) -> (r: Result<(Project, Vec<u8>), Error>)
    ensures
        r matches Ok(done) ==> record_laws::writes_extras(done.0@.extra_properties),
        to_write(r) == create_outcome(request.slug@, request.name@, request.body@, config@),
{
    if let Err(e) = model::validate_project_slug(request.slug.as_str()) {
        return Err(e);
    }
    let name = trimmed(request.name.as_str());
    if let Err(e) = model::validate_name(name.as_str(), "name") {
        return Err(e);
    }
    let directory = match config.projects_path() {
        Ok(directory) => directory,
        Err(e) => {
            return Err(e);
        },
    };
    write(
        Project {
            slug: request.slug.clone(),
            path: text::join4(directory.as_str(), "/", request.slug.as_str(), ".md"),
            name,
            body: model::normalize_body(request.body.as_str()),
            extra_properties: yaml::new_mapping(),
        },
    )
}

/// The error for a project whose record is there already.
pub fn already_exists(slug: &str, path: &str) -> (r: Error)
    ensures
        r@ == ErrorModel::validation(
            "project_already_exists"@,
            "Project "@ + text::debug_text(slug@) + " already exists"@,
        ).with_path(path@),
{
    Error::validation(
        "project_already_exists",
        text::join3("Project ", text::debug(slug).as_str(), " already exists").as_str(),
    ).with_path(path)
}

/// What editing a project gives: the new project and its record.
pub open spec fn edit_outcome(
    project: ProjectModel,
    name: Option<Seq<char>>,
    body: Option<Seq<char>>,
) -> Result<(ProjectModel, Seq<u8>), ErrorModel> {
    if name is None && body is None {
        Err(ErrorModel::usage("no_changes"@, "Project edit requires at least one change"@))
    } else if name is Some && model::check_name(text::trim(name->0), "name"@) is Err {
        Err(model::check_name(text::trim(name->0), "name"@)->Err_0)
    } else {
        (ProjectModel {
            name: if name is Some {
                text::trim(name->0)
            } else {
                project.name
            },
            body: if body is Some {
                model::body(body->0)
            } else {
                project.body
            },
            ..project
        }).written()
    }
}

/// Edit a project: the new project and its record. What is not changed stays as it is.
pub fn edit(project: Project, changes: &EditProject) -> (r: Result<(Project, Vec<u8>), Error>)
    ensures
        r matches Ok(done) ==> record_laws::writes_extras(done.0@.extra_properties),
        to_write(r) == edit_outcome(
            project@,
            text::opt(changes.name),
            text::opt(changes.body),
        ),
{
    if changes.name.is_none() && changes.body.is_none() {
        return Err(Error::usage("no_changes", "Project edit requires at least one change"));
    }
    let mut project = project;
    if let Some(name) = &changes.name {
        let name = trimmed(name.as_str());
        if let Err(e) = model::validate_name(name.as_str(), "name") {
            return Err(e);
        }
        project.name = name;
    }
    if let Some(body) = &changes.body {
        project.body = model::normalize_body(body.as_str());
    }
    write(project)
}

/// Show a project.
pub fn show(project: Project) -> (r: Project)
    ensures
        r == project,
{
    project
}

/// The IDs of those of the first `n` tasks that name the project.
pub open spec fn naming(tasks: Seq<TaskModel>, slug: Seq<char>, n: int) -> Seq<Seq<char>>
    decreases n,
{
    if n <= 0 {
        seq![]
    } else if tasks[n - 1].projects.contains(slug) {
        naming(tasks, slug, n - 1).push(tasks[n - 1].id)
    } else {
        naming(tasks, slug, n - 1)
    }
}

fn naming_ids(tasks: &Vec<Task>, slug: &str) -> (r: Vec<String>)
    ensures
        text::strings(r@) == naming(task::task_models(tasks@), slug@, tasks@.len() as int),
{
    let ghost models = task::task_models(tasks@);
    let mut r: Vec<String> = Vec::new();
    let mut i: usize = 0;
    assert(text::strings(r@) =~= naming(models, slug@, 0));
    while i < tasks.len()
        invariant
            i <= tasks@.len(),
            models == task::task_models(tasks@),
            text::strings(r@) == naming(models, slug@, i as int),
        decreases tasks.len() - i,
    {
        assert(models[i as int] == tasks@[i as int]@);
        if text::is_listed(tasks[i].projects.as_slice(), slug) {
            let ghost had = text::strings(r@);
            r.push(tasks[i].id.clone());
            assert(text::strings(r@) =~= had.push(models[i as int].id));
        }
        i += 1;
    }
    r
}

/// Fail where the deletion of a project is not confirmed.
pub fn validate_deletion(confirmed: bool) -> (r: Result<(), Error>)
    ensures
        r is Ok <==> confirmed,
        r matches Err(e) ==> e@ == ErrorModel::usage(
            "confirmation_required"@,
            "Project deletion requires --yes"@,
        ),
{
    if !confirmed {
        return Err(Error::usage("confirmation_required", "Project deletion requires --yes"));
    }
    Ok(())
}

/// Delete a project, which no task may name.
pub fn delete(project: Project, tasks: &Vec<Task>, confirmed: bool) -> (r: Result<Project, Error>)
    ensures
        r is Ok <==> confirmed && forall|k: int|
            0 <= k < tasks@.len() ==> !(#[trigger] tasks@[k])@.projects.contains(project@.slug),
        r matches Ok(deleted) ==> deleted@ == project@,
        error::viewed(r) == ({
            let ids = naming(task::task_models(tasks@), project@.slug, tasks@.len() as int);
            if !confirmed {
                Err(
                    ErrorModel::usage(
                        "confirmation_required"@,
                        "Project deletion requires --yes"@,
                    ),
                )
            } else if ids.len() > 0 {
                Err(
                    ErrorModel::validation(
                        "project_in_use"@,
                        "Project "@ + text::debug_text(project@.slug)
                            + " is referenced by task(s): "@ + text::joined(
                            text::sorted(ids),
                            ", "@,
                        ),
                    ).with_path(project@.path),
                )
            } else {
                Ok(project@)
            }
        }),
{
    if let Err(e) = validate_deletion(confirmed) {
        return Err(e);
    }
    let ids = naming_ids(tasks, project.slug.as_str());
    assert(ids@.len() == text::strings(ids@).len());
    proof {
        let models = task::task_models(tasks@);
        project_laws::lemma_naming(models, project@.slug, models.len() as int);
        assert forall|k: int| 0 <= k < tasks@.len() implies (#[trigger] tasks@[k])@.projects
            == models[k].projects by {}
        assert forall|k: int| 0 <= k < models.len() implies (#[trigger] models[k]).projects
            == tasks@[k]@.projects by {}
    }
    if ids.len() > 0 {
        return Err(
            Error::validation(
                "project_in_use",
                text::join4(
                    "Project ",
                    text::debug(project.slug.as_str()).as_str(),
                    " is referenced by task(s): ",
                    text::join(&text::sort_strings(&ids), ", ").as_str(),
                ).as_str(),
            ).with_path(project.path.as_str()),
        );
    }
    Ok(project)
}

/// How often the text occurs among the first `n`.
pub open spec fn occurrences(list: Seq<Seq<char>>, s: Seq<char>, n: int) -> nat
    decreases n,
{
    if n <= 0 {
        0
    } else if list[n - 1] == s {
        occurrences(list, s, n - 1) + 1
    } else {
        occurrences(list, s, n - 1)
    }
}

/// How often the first `n` tasks name the project.
pub open spec fn references(tasks: Seq<TaskModel>, slug: Seq<char>, n: int) -> nat
    decreases n,
{
    if n <= 0 {
        0
    } else {
        references(tasks, slug, n - 1) + occurrences(
            tasks[n - 1].projects,
            slug,
            tasks[n - 1].projects.len() as int,
        )
    }
}

/// A number, or the largest that can be counted to.
pub open spec fn counted(n: nat) -> usize {
    if n <= usize::MAX {
        n as usize
    } else {
        usize::MAX
    }
}

fn count_occurrences(list: &Vec<String>, s: &str) -> (r: usize)
    ensures
        r == occurrences(text::strings(list@), s@, list@.len() as int),
{
    let ghost all = text::strings(list@);
    let mut n: usize = 0;
    let mut i: usize = 0;
    while i < list.len()
        invariant
            i <= list@.len(),
            n <= i,
            all == text::strings(list@),
            n == occurrences(all, s@, i as int),
        decreases list.len() - i,
    {
        assert(all[i as int] == list@[i as int]@);
        if text::same(list[i].as_str(), s) {
            n += 1;
        }
        i += 1;
    }
    n
}

fn count_references(tasks: &Vec<Task>, slug: &str) -> (r: usize)
    ensures
        r == counted(references(task::task_models(tasks@), slug@, tasks@.len() as int)),
{
    let ghost models = task::task_models(tasks@);
    let mut n: usize = 0;
    let mut i: usize = 0;
    while i < tasks.len()
        invariant
            i <= tasks@.len(),
            models == task::task_models(tasks@),
            n == counted(references(models, slug@, i as int)),
        decreases tasks.len() - i,
    {
        assert(models[i as int] == tasks@[i as int]@);
        let more: usize = count_occurrences(&tasks[i].projects, slug);
        n = if more <= usize::MAX - n {
            n + more
        } else {
            usize::MAX
        };
        i += 1;
    }
    n
}

/// What projects say.
pub open spec fn project_models(projects: Seq<Project>) -> Seq<ProjectModel> {
    projects.map_values(|project: Project| project@)
}

/// The slugs of projects.
pub open spec fn slugs(projects: Seq<ProjectModel>) -> Seq<Seq<char>> {
    projects.map_values(|project: ProjectModel| project.slug)
}

/// The slugs of projects.
pub fn known_projects(projects: &Vec<Project>) -> (r: Vec<String>)
    ensures
        text::strings(r@) == slugs(project_models(projects@)),
{
    let mut r: Vec<String> = Vec::new();
    let mut i: usize = 0;
    while i < projects.len()
        invariant
            i <= projects@.len(),
            r@.len() == i,
            forall|k: int| 0 <= k < i ==> (#[trigger] r@[k])@ == projects@[k]@.slug,
        decreases projects.len() - i,
    {
        r.push(projects[i].slug.clone());
        i += 1;
    }
    assert(text::strings(r@) =~= slugs(project_models(projects@)));
    r
}

impl Ranked for ProjectSummary {
    open spec fn before(a: Self, b: Self) -> bool {
        if a.project.name@ != b.project.name@ {
            text::less(a.project.name@, b.project.name@)
        } else {
            text::less(a.project.slug@, b.project.slug@)
        }
    }

    proof fn one_way(a: Self, b: Self) {
        let (x, y) = (a.project.name@, b.project.name@);
        let (u, v) = (a.project.slug@, b.project.slug@);
        assert(x.take(0) == y.take(0));
        text::lemma_less_total(x, y, 0);
        assert(u.take(0) == v.take(0));
        text::lemma_less_total(u, v, 0);
    }

    proof fn no_gap(a: Self, b: Self, c: Self) {
        let (x, y, z) = (a.project.name@, b.project.name@, c.project.name@);
        let (u, v, w) = (a.project.slug@, b.project.slug@, c.project.slug@);
        if text::less(x, z) {
            text::lemma_less_between(x, y, z);
        }
        if text::less(u, w) {
            text::lemma_less_between(u, v, w);
        }
        assert(x.take(0) == y.take(0));
        text::lemma_less_total(x, y, 0);
        assert(y.take(0) == z.take(0));
        text::lemma_less_total(y, z, 0);
    }

    fn is_before(&self, other: &Self) -> (r: bool) {
        if text::same(self.project.name.as_str(), other.project.name.as_str()) {
            text::is_less(
                &text::chars(self.project.slug.as_str()),
                &text::chars(other.project.slug.as_str()),
            )
        } else {
            text::is_less(
                &text::chars(self.project.name.as_str()),
                &text::chars(other.project.name.as_str()),
            )
        }
    }
}

/// Whether all the projects' properties have a JSON form, from the `i`-th on.
pub open spec fn check_json(projects: Seq<ProjectModel>, i: int) -> Result<(), ErrorModel>
    decreases projects.len() - i,
{
    if i >= projects.len() {
        Ok(())
    } else if yaml::json_object(projects[i].extra_properties) is Err {
        Err(json_error(projects[i]))
    } else {
        check_json(projects, i + 1)
    }
}

/// Whether projects can be listed: the projects that tasks name exist, and all properties have a
/// JSON form.
pub open spec fn check_list(projects: Seq<ProjectModel>, tasks: Seq<TaskModel>) -> Result<
    (),
    ErrorModel,
> {
    match task::check_all_references(tasks, slugs(projects), 0) {
        Err(e) => Err(e),
        Ok(_) => check_json(projects, 0),
    }
}

/// Whether these are the summaries of the projects, in their order.
pub open spec fn summarises(
    summaries: Seq<ProjectSummary>,
    projects: Seq<ProjectModel>,
    tasks: Seq<TaskModel>,
) -> bool {
    &&& summaries.len() == projects.len()
    &&& forall|i: int|
        0 <= i < summaries.len() ==> (#[trigger] summaries[i]).project.shows(projects[i])
            && summaries[i].referencing_tasks == counted(
            references(tasks, projects[i].slug, tasks.len() as int),
        )
}

/// List the projects by name, then slug, each with the number of times that tasks name it.
pub fn list(projects: &Vec<Project>, tasks: &Vec<Task>) -> (r: Result<Vec<ProjectSummary>, Error>)
    ensures
        match check_list(project_models(projects@), task::task_models(tasks@)) {
            Err(error) => r matches Err(e) && e@ == error,
            Ok(_) => r matches Ok(listed) && exists|summaries: Seq<ProjectSummary>| #[trigger]
                summarises(
                    summaries,
                    project_models(projects@),
                    task::task_models(tasks@),
                ) && order::arranged(summaries, listed@),
        },
{
    let ghost models = project_models(projects@);
    let ghost all = task::task_models(tasks@);
    let known = known_projects(projects);
    if let Err(e) = task::validate_all_references(tasks, &known) {
        return Err(e);
    }
    let mut summaries: Vec<ProjectSummary> = Vec::new();
    let mut i: usize = 0;
    while i < projects.len()
        invariant
            i <= projects@.len(),
            models == project_models(projects@),
            all == task::task_models(tasks@),
            task::check_all_references(all, slugs(models), 0) is Ok,
            check_json(models, 0) == check_json(models, i as int),
            summaries@.len() == i,
            forall|k: int|
                0 <= k < i ==> (#[trigger] summaries@[k]).project.shows(models[k])
                    && summaries@[k].referencing_tasks == counted(
                    references(all, models[k].slug, all.len() as int),
                ),
        decreases projects.len() - i,
    {
        assert(models[i as int] == projects@[i as int]@);
        let referencing_tasks: usize = count_references(tasks, projects[i].slug.as_str());
        match ProjectView::from_project(&projects[i]) {
            Ok(project) => {
                summaries.push(ProjectSummary { project, referencing_tasks });
            },
            Err(e) => {
                return Err(e);
            },
        }
        i += 1;
    }
    assert(summarises(summaries@, models, all));
    Ok(order::sort(summaries))
}

} // verus!
