//! Modules and members of the schema, and the assembly of a whole document.
use vstd::prelude::*;
use crate::shape::ValueShape;

verus! {

/// A documented method or property.
#[derive(Debug, PartialEq)]
pub struct MemberDescription {
    pub name: String,
    pub doc: String,
    /// `None` when the member's type annotation could not be read.
    pub shape: Option<ValueShape>,
}

/// A named group of methods and properties, in document order.
#[derive(Debug, PartialEq)]
pub struct ApiModule {
    pub name: String,
    pub doc: String,
    pub methods: Vec<MemberDescription>,
    pub properties: Vec<MemberDescription>,
}

/// Every module found in one document, in document order.
#[derive(Debug, PartialEq)]
pub struct ApiDocument {
    pub modules: Vec<ApiModule>,
}

/// Why a set of modules does not form a document.
#[derive(Debug, Clone, Copy, PartialEq, Eq, Structural)]
pub enum BuildError {
    /// Two modules share a name.
    DuplicateModule,
    /// A module has two methods, or two properties, of the same name.
    DuplicateMember,
}

pub open spec fn member_names_distinct(ms: Seq<MemberDescription>) -> bool {
    forall|i: int, j: int| 0 <= i < j < ms.len() ==> #[trigger] ms[i].name@ != #[trigger] ms[j].name@
}

pub open spec fn module_names_distinct(ms: Seq<ApiModule>) -> bool {
    forall|i: int, j: int| 0 <= i < j < ms.len() ==> #[trigger] ms[i].name@ != #[trigger] ms[j].name@
}

pub open spec fn members_distinct(ms: Seq<ApiModule>) -> bool {
    forall|i: int|
        0 <= i < ms.len() ==> member_names_distinct(#[trigger] ms[i].methods@)
            && member_names_distinct(ms[i].properties@)
}

impl ApiModule {
    /// A module with no members yet.
    pub fn new(name: String, doc: String) -> (r: ApiModule)
        ensures
            r.name == name,
            r.doc == doc,
            r.methods@.len() == 0,
            r.properties@.len() == 0,
    {
        ApiModule { name, doc, methods: Vec::new(), properties: Vec::new() }
    }
}

/// Whether no two members share a name.
pub fn distinct_member_names(ms: &Vec<MemberDescription>) -> (r: bool)
    ensures
        r == member_names_distinct(ms@),
{
    let mut j: usize = 0;
    while j < ms.len()
        invariant
            j <= ms.len(),
            forall|a: int, b: int| 0 <= a < b < j ==> #[trigger] ms@[a].name@ != #[trigger] ms@[b].name@,
        decreases ms.len() - j,
    {
        let mut i: usize = 0;
        while i < j
            invariant
                i <= j < ms.len(),
                forall|a: int| 0 <= a < i ==> #[trigger] ms@[a].name@ != ms@[j as int].name@,
            decreases j - i,
        {
            if ms[i].name == ms[j].name {
                return false;
            }
            i = i + 1;
        }
        j = j + 1;
    }
    true
}

/// Whether no two modules share a name.
pub fn distinct_module_names(ms: &Vec<ApiModule>) -> (r: bool)
    ensures
        r == module_names_distinct(ms@),
{
    let mut j: usize = 0;
    while j < ms.len()
        invariant
            j <= ms.len(),
            forall|a: int, b: int| 0 <= a < b < j ==> #[trigger] ms@[a].name@ != #[trigger] ms@[b].name@,
        decreases ms.len() - j,
    {
        let mut i: usize = 0;
        while i < j
            invariant
                i <= j < ms.len(),
                forall|a: int| 0 <= a < i ==> #[trigger] ms@[a].name@ != ms@[j as int].name@,
            decreases j - i,
        {
            if ms[i].name == ms[j].name {
                return false;
            }
            i = i + 1;
        }
        j = j + 1;
    }
    true
}

/// Assembles classified modules into a document, checking that module names
/// are distinct, and member names distinct within each module and kind.
pub fn build(modules: Vec<ApiModule>) -> (r: Result<ApiDocument, BuildError>)
    ensures
        !module_names_distinct(modules@) ==> r == Err::<ApiDocument, BuildError>(
            BuildError::DuplicateModule,
        ),
        module_names_distinct(modules@) && !members_distinct(modules@) ==> r == Err::<
            ApiDocument,
            BuildError,
        >(BuildError::DuplicateMember),
        module_names_distinct(modules@) && members_distinct(modules@) ==> (r matches Ok(d)
            && d.modules == modules),
{
    if !distinct_module_names(&modules) {
        return Err(BuildError::DuplicateModule);
    }
    let mut i: usize = 0;
    while i < modules.len()
        invariant
            i <= modules.len(),
            module_names_distinct(modules@),
            forall|k: int|
                0 <= k < i ==> member_names_distinct(#[trigger] modules@[k].methods@)
                    && member_names_distinct(modules@[k].properties@),
        decreases modules.len() - i,
    {
        if !distinct_member_names(&modules[i].methods) || !distinct_member_names(
            &modules[i].properties,
        ) {
            return Err(BuildError::DuplicateMember);
        }
        i = i + 1;
    }
    Ok(ApiDocument { modules })
}

} // verus!
