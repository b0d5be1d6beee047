//! The configuration: the projects and the databases that hold their tickets.

use vstd::prelude::*;

use crate::dict::{clones_hold_the_same, Dict};
use crate::text::{optional_text, texts_of};

verus! {

/// The property that holds a ticket's epic, where the configuration does not name one.
pub fn default_epic() -> (name: String)
    ensures
        name@ == "Epic"@,
{
    "Epic".to_string()
}

/// The type of an epic's status, where the configuration does not name one.
pub fn default_select() -> (name: String)
    ensures
        name@ == "select"@,
{
    "select".to_string()
}

/// The property that holds a ticket's date, where the configuration does not name one.
pub fn default_sort_date() -> (name: String)
    ensures
        name@ == "Sort Date"@,
{
    "Sort Date".to_string()
}

/// The type of the date property, where the configuration does not name one.
pub fn default_formula() -> (name: String)
    ensures
        name@ == "formula"@,
{
    "formula".to_string()
}

/// The configuration of a project.
#[derive(Debug)]
pub struct ProjectConfig {
    pub database_id: String,
    pub epics_database_id: String,
    pub prop_epic: String,
    pub epic_status_type: String,
    pub date_property: String,
    pub date_property_type: String,
}

/// What the configuration of a project holds.
#[verifier::ext_equal]
pub struct ProjectConfigView {
    pub database_id: Seq<char>,
    pub epics_database_id: Seq<char>,
    pub prop_epic: Seq<char>,
    pub epic_status_type: Seq<char>,
    pub date_property: Seq<char>,
    pub date_property_type: Seq<char>,
}

impl View for ProjectConfig {
    type V = ProjectConfigView;

    open spec fn view(&self) -> ProjectConfigView {
        ProjectConfigView {
            database_id: self.database_id@,
            epics_database_id: self.epics_database_id@,
            prop_epic: self.prop_epic@,
            epic_status_type: self.epic_status_type@,
            date_property: self.date_property@,
            date_property_type: self.date_property_type@,
        }
    }
}

impl DeepView for ProjectConfig {
    type V = ProjectConfigView;

    open spec fn deep_view(&self) -> ProjectConfigView {
        self@
    }
}

impl Clone for ProjectConfig {
    fn clone(&self) -> (copy: Self)
        ensures
            copy@ == self@,
    {
        ProjectConfig {
            database_id: self.database_id.clone(),
            epics_database_id: self.epics_database_id.clone(),
            prop_epic: self.prop_epic.clone(),
            epic_status_type: self.epic_status_type.clone(),
            date_property: self.date_property.clone(),
            date_property_type: self.date_property_type.clone(),
        }
    }
}

/// The configuration: the projects by their names, and the users by theirs.
#[derive(Debug)]
pub struct Config {
    pub default_project: String,
    pub projects: Dict<ProjectConfig>,
    pub users: Dict<String>,
}

impl Clone for Config {
    fn clone(&self) -> (copy: Self)
        ensures
            copy.default_project@ == self.default_project@,
            copy.projects.rows() == self.projects.rows(),
            copy.users.rows() == self.users.rows(),
    {
        assert(clones_hold_the_same::<ProjectConfig>());
        assert(clones_hold_the_same::<String>());
        Config {
            default_project: self.default_project.clone(),
            projects: self.projects.clone(),
            users: self.users.clone(),
        }
    }
}

impl Default for Config {
    fn default() -> (config: Self)
        ensures
            config.default_project@ == Seq::<char>::empty(),
            config.projects.rows() == Seq::<(Seq<char>, ProjectConfigView)>::empty(),
            config.users.rows() == Seq::<(Seq<char>, Seq<char>)>::empty(),
    {
        Config { default_project: String::new(), projects: Dict::new(), users: Dict::new() }
    }
}

// ---------------------------------------------------------------------------
// Where the configuration is looked for
// ---------------------------------------------------------------------------

/// The files that may hold the configuration: the given one, or else the usual ones in the order
/// in which they are tried.
pub open spec fn candidates(given: Option<Seq<char>>) -> Seq<Seq<char>> {
    match given {
        Some(path) => seq![path],
        None => seq!["/config/notion.yaml"@, "./config/notion.yaml"@],
    }
}

/// What is reported where there is no configuration.
pub open spec fn missing_message(given: Option<Seq<char>>) -> Seq<char> {
    match given {
        Some(path) => "Error: config not found at "@ + path,
        None => "Error: no config file found"@,
    }
}

/// The files that may hold the configuration, in the order in which they are tried.
pub fn config_paths(given: Option<&str>) -> (paths: Vec<String>)
    ensures
        texts_of(paths@) == candidates(optional_text(given)),
{
    let mut paths: Vec<String> = Vec::new();
    match given {
        Some(path) => {
            paths.push(path.to_string());
        },
        None => {
            paths.push("/config/notion.yaml".to_string());
            paths.push("./config/notion.yaml".to_string());
        },
    }
    assert(texts_of(paths@) == candidates(optional_text(given)));
    paths
}

/// Picks the file to read: the first that is there, given for each of them whether it is. Where
/// none is, the result is the message to report.
pub fn locate_config(given: Option<&str>, present: &Vec<bool>) -> (located: Result<String, String>)
    requires
        present@.len() == candidates(optional_text(given)).len(),
    ensures
        match located {
            Ok(path) => exists|i: int|
                0 <= i < present@.len() && #[trigger] present@[i] && path@ == candidates(
                    optional_text(given),
                )[i] && forall|j: int| 0 <= j < i ==> !(#[trigger] present@[j]),
            Err(message) => message@ == missing_message(optional_text(given)) && forall|i: int|
                0 <= i < present@.len() ==> !(#[trigger] present@[i]),
        },
{
    let paths = config_paths(given);
    let ghost all = candidates(optional_text(given));
    let mut i: usize = 0;
    while i < present.len()
        invariant
            i <= present@.len() == all.len(),
            all == candidates(optional_text(given)),
            texts_of(paths@) == all,
            forall|j: int| 0 <= j < i ==> !(#[trigger] present@[j]),
        decreases present@.len() - i,
    {
        if present[i] {
            assert(paths@.len() == texts_of(paths@).len());
            assert(paths@[i as int]@ == texts_of(paths@)[i as int]);
            return Ok(paths[i].clone());
        }
        i = i + 1;
    }
    match given {
        Some(path) => {
            let mut message = "Error: config not found at ".to_string();
            message.push_str(path);
            Err(message)
        },
        None => Err("Error: no config file found".to_string()),
    }
}

/// A given file is the only one that is tried, and it is named, whole, where it is not there.
/// Otherwise the usual two are tried, the one of the system first.
pub proof fn law_given_configuration_is_the_only_one(path: Seq<char>)
    ensures
        candidates(Some(path)).len() == 1,
        candidates(Some(path))[0] == path,
        missing_message(Some(path)) == "Error: config not found at "@ + path,
        candidates(None).len() == 2,
        candidates(None)[0] == "/config/notion.yaml"@,
        candidates(None)[1] == "./config/notion.yaml"@,
        missing_message(None) == "Error: no config file found"@,
{
}

/// What is said of a project's configuration is said of the whole text of each of its fields.
pub proof fn law_project_view_holds_every_field(project: ProjectConfig)
    ensures
        project@.database_id == project.database_id@,
        project@.epics_database_id == project.epics_database_id@,
        project@.prop_epic == project.prop_epic@,
        project@.epic_status_type == project.epic_status_type@,
        project@.date_property == project.date_property@,
        project@.date_property_type == project.date_property_type@,
        project.deep_view() == project@,
{
}

} // verus!
