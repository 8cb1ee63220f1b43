//! Grouping of the documentation root's child blocks into modules and members.
use vstd::prelude::*;
use vstd::string::StrSliceExecFns;
use crate::model::{ApiModule, MemberDescription};
use crate::shape::{
    find_top_level, first_top_level, lemma_trimmed_within, no_top_level, parse_range, read_shape,
    trims_to, TypeParseError, ValueShape,
};
use crate::text::{same_text, trim_range};
use vstd::string::StringExecFns;

verus! {

/// One child element of the documentation root, as the HTML tree reports it.
#[derive(Debug)]
pub struct DocBlock {
    /// Element name, such as `h2` or `p`.
    pub tag: String,
    /// Value of the `class` attribute, empty when absent.
    pub class: String,
    /// The element's text content.
    pub text: String,
}

/// The structural role of a block: an `h1` or `h2` heading opens a module, an
/// element of class `api-method` or `api-property` opens a member, and any
/// other element is text.
#[derive(Debug, Clone, Copy, PartialEq, Eq, Structural)]
pub enum BlockRole {
    ModuleHeading,
    Method,
    Property,
    Text,
}

/// Why a document has no usable structure.
#[derive(Debug, Clone, Copy, PartialEq, Eq, Structural)]
pub enum ClassifyError {
    /// The documentation container was not found.
    MissingRoot,
    /// The container holds no module heading.
    NoModules,
}

/// A member block that could not be read in full: either its type annotation,
/// and the member keeps an unknown shape, or its name, which is empty, and the
/// member is left out.
#[derive(Debug, PartialEq)]
pub struct Warning {
    pub member: String,
    pub error: TypeParseError,
}

/// The modules of a document, with the warnings raised while reading them.
#[derive(Debug)]
pub struct Classified {
    pub modules: Vec<ApiModule>,
    pub warnings: Vec<Warning>,
}

/// A block as plain text: element name, class attribute and text content.
pub type BlockParts = (Seq<char>, Seq<char>, Seq<char>);

pub open spec fn parts_of(b: DocBlock) -> BlockParts {
    (b.tag@, b.class@, b.text@)
}

pub open spec fn all_parts(bs: Seq<DocBlock>) -> Seq<BlockParts> {
    bs.map_values(|b: DocBlock| parts_of(b))
}

pub open spec fn role_of(b: BlockParts) -> BlockRole {
    if b.0 == "h1"@ || b.0 == "h2"@ {
        BlockRole::ModuleHeading
    } else if b.1 == "api-method"@ {
        BlockRole::Method
    } else if b.1 == "api-property"@ {
        BlockRole::Property
    } else {
        BlockRole::Text
    }
}

/// The texts of the module headings among `bs`, in order.
pub open spec fn heading_names(bs: Seq<BlockParts>) -> Seq<Seq<char>>
    decreases bs.len(),
{
    if bs.len() == 0 {
        Seq::empty()
    } else if role_of(bs.last()) == BlockRole::ModuleHeading {
        heading_names(bs.drop_last()).push(bs.last().2)
    } else {
        heading_names(bs.drop_last())
    }
}

pub open spec fn module_names(ms: Seq<ApiModule>) -> Seq<Seq<char>> {
    ms.map_values(|m: ApiModule| m.name@)
}

/// Every member of the module has a non-empty name.
pub open spec fn members_named(m: ApiModule) -> bool {
    &&& forall|k: int| 0 <= k < m.methods@.len() ==> (#[trigger] m.methods@[k]).name@.len() > 0
    &&& forall|k: int| 0 <= k < m.properties@.len() ==> (#[trigger] m.properties@[k]).name@.len() > 0
}

/// The number of method and property blocks that follow the first heading.
pub open spec fn member_blocks(bs: Seq<BlockParts>) -> nat
    decreases bs.len(),
{
    if bs.len() == 0 {
        0
    } else {
        member_blocks(bs.drop_last()) + if (role_of(bs.last()) == BlockRole::Method || role_of(
            bs.last(),
        ) == BlockRole::Property) && heading_names(bs.drop_last()).len() > 0 {
            1nat
        } else {
            0nat
        }
    }
}

/// The number of members whose type could not be read.
pub open spec fn unknown_count(ms: Seq<MemberDescription>) -> nat
    decreases ms.len(),
{
    if ms.len() == 0 {
        0
    } else {
        unknown_count(ms.drop_last()) + if ms.last().shape is None {
            1nat
        } else {
            0nat
        }
    }
}

/// The number of members of `m` whose type was read.
pub open spec fn module_tally(m: ApiModule) -> int {
    m.methods@.len() + m.properties@.len() - unknown_count(m.methods@) - unknown_count(
        m.properties@,
    )
}

/// The number of members whose type was read, over all modules.
pub open spec fn tally(ms: Seq<ApiModule>) -> int
    decreases ms.len(),
{
    if ms.len() == 0 {
        0
    } else {
        tally(ms.drop_last()) + module_tally(ms.last())
    }
}

/// The number of members of `m` whose type could not be read.
pub open spec fn module_unknowns(m: ApiModule) -> int {
    unknown_count(m.methods@) + unknown_count(m.properties@) as int
}

/// The number of members whose type could not be read, over all modules.
pub open spec fn unknowns(ms: Seq<ApiModule>) -> int
    decreases ms.len(),
{
    if ms.len() == 0 {
        0
    } else {
        unknowns(ms.drop_last()) + module_unknowns(ms.last())
    }
}

/// The number of warnings about a member block with an empty name.
pub open spec fn unnamed(ws: Seq<Warning>) -> int
    decreases ws.len(),
{
    if ws.len() == 0 {
        0
    } else {
        unnamed(ws.drop_last()) + if ws.last().member@.len() == 0 {
            1int
        } else {
            0int
        }
    }
}

proof fn lemma_unnamed_push(ws: Seq<Warning>, w: Warning)
    ensures
        unnamed(ws.push(w)) == unnamed(ws) + if w.member@.len() == 0 {
            1int
        } else {
            0int
        },
{
    assert(ws.push(w).drop_last() =~= ws);
}

proof fn lemma_unknown_push(ms: Seq<MemberDescription>, m: MemberDescription)
    ensures
        unknown_count(ms.push(m)) == unknown_count(ms) + if m.shape is None {
            1int
        } else {
            0int
        },
{
    assert(ms.push(m).drop_last() =~= ms);
}

proof fn lemma_tally_push(ms: Seq<ApiModule>, m: ApiModule)
    ensures
        tally(ms.push(m)) == tally(ms) + module_tally(m),
        unknowns(ms.push(m)) == unknowns(ms) + module_unknowns(m),
{
    assert(ms.push(m).drop_last() =~= ms);
}

pub fn block_role(b: &DocBlock) -> (r: BlockRole)
    ensures
        r == role_of(parts_of(*b)),
{
    if same_text(b.tag.as_str(), "h1") || same_text(b.tag.as_str(), "h2") {
        BlockRole::ModuleHeading
    } else if same_text(b.class.as_str(), "api-method") {
        BlockRole::Method
    } else if same_text(b.class.as_str(), "api-property") {
        BlockRole::Property
    } else {
        BlockRole::Text
    }
}

/// The member text `text` reads as the name `name` and the type result `res`:
/// split at the first top-level colon into a trimmed name and a type, or, with
/// no such colon, the whole trimmed text as name and a malformed type.
pub open spec fn member_read(
    text: Seq<char>,
    name: Seq<char>,
    res: Result<ValueShape, TypeParseError>,
) -> bool {
    (exists|c: int|
        #![trigger first_top_level(text, ':', c)]
        first_top_level(text, ':', c) && trims_to(text.subrange(0, c), name) && read_shape(
            text.subrange(c + 1, text.len() as int),
            res,
        )) || (no_top_level(text, ':') && trims_to(text, name) && res == Err::<
        ValueShape,
        TypeParseError,
    >(TypeParseError::Malformed))
}

/// Some block of `bs` with the role `role`, which follows the heading of the
/// module at index `k` and precedes the next heading, reads as `name` and `res`.
pub open spec fn from_block(
    bs: Seq<BlockParts>,
    k: int,
    role: BlockRole,
    name: Seq<char>,
    res: Result<ValueShape, TypeParseError>,
) -> bool {
    exists|i: int|
        0 <= i < bs.len() && role_of(#[trigger] bs[i]) == role && heading_names(bs.take(i)).len()
            == k + 1 && member_read(
            bs[i].2,
            name,
            res,
        )
}

/// The member `m` was read from a block of `bs` with the role `role`: its
/// shape is the type read there, or unknown when that type failed to read.
pub open spec fn member_from(
    bs: Seq<BlockParts>,
    k: int,
    role: BlockRole,
    m: MemberDescription,
) -> bool {
    match m.shape {
        Some(v) => from_block(bs, k, role, m.name@, Ok(v)),
        None => exists|e: TypeParseError| #[trigger] from_block(bs, k, role, m.name@, Err(e)),
    }
}

/// The warning `w` is about a member block of `bs`: its type failed to read
/// with `w`'s error, or its name is empty.
pub open spec fn warning_from(bs: Seq<BlockParts>, w: Warning) -> bool {
    exists|k: int, role: BlockRole, res: Result<ValueShape, TypeParseError>|
        #[trigger] from_block(bs, k, role, w.member@, res) && (role == BlockRole::Method || role
            == BlockRole::Property) && (res == Err::<ValueShape, TypeParseError>(w.error) || (
        w.member@.len() == 0 && w.error == TypeParseError::Malformed))
}

/// The member `m` was read from block `i` of `bs`, which has the role `role`.
pub open spec fn member_at(bs: Seq<BlockParts>, i: int, role: BlockRole, m: MemberDescription) -> bool {
    &&& 0 <= i < bs.len()
    &&& role_of(bs[i]) == role
    &&& match m.shape {
        Some(v) => member_read(bs[i].2, m.name@, Ok(v)),
        None => exists|e: TypeParseError| #[trigger] member_read(bs[i].2, m.name@, Err(e)),
    }
}

/// The text blocks `bs[i..j]`, joined one line apart.
pub open spec fn joined_text(bs: Seq<BlockParts>, i: int, j: int) -> Seq<char>
    decreases j - i,
{
    if j <= i {
        Seq::empty()
    } else {
        let d = joined_text(bs, i, j - 1);
        if d.len() == 0 {
            bs[j - 1].2
        } else {
            d + "\n"@ + bs[j - 1].2
        }
    }
}

/// `bs[i..j]` is the whole run of text blocks that starts at `i`.
pub open spec fn text_run(bs: Seq<BlockParts>, i: int, j: int) -> bool {
    &&& 0 <= i <= j <= bs.len()
    &&& forall|k: int| i <= k < j ==> role_of(#[trigger] bs[k]) == BlockRole::Text
    &&& j == bs.len() || role_of(bs[j]) != BlockRole::Text
}

/// The doc of the member read from block `i` is the run of text blocks that
/// follows it, joined one line apart.
pub open spec fn doc_at(bs: Seq<BlockParts>, i: int, m: MemberDescription) -> bool {
    exists|j: int| #[trigger] text_run(bs, i + 1, j) && m.doc@ == joined_text(bs, i + 1, j)
}

/// Member `j` of `ms` was read from block `idx[j]` of `bs`, with the doc that
/// follows that block, and the positions increase.
pub open spec fn indexed(
    bs: Seq<BlockParts>,
    role: BlockRole,
    ms: Seq<MemberDescription>,
    idx: Seq<int>,
) -> bool {
    &&& idx.len() == ms.len()
    &&& forall|j: int| 0 <= j < ms.len() ==> member_at(bs, idx[j], role, #[trigger] ms[j])
    &&& forall|j: int| 0 <= j < ms.len() ==> doc_at(bs, idx[j], #[trigger] ms[j])
    &&& forall|j: int| 0 < j < idx.len() ==> idx[j - 1] < #[trigger] idx[j]
}

/// The members `ms` were read from blocks of `bs` in the order of those blocks.
pub open spec fn in_block_order(bs: Seq<BlockParts>, role: BlockRole, ms: Seq<MemberDescription>) -> bool {
    exists|idx: Seq<int>| #[trigger] indexed(bs, role, ms, idx)
}

/// Every member of `m`, the module at index `k`, was read from a block of its
/// own kind within that module's section, in the order of the blocks.
pub open spec fn module_from(bs: Seq<BlockParts>, k: int, m: ApiModule) -> bool {
    &&& in_block_order(bs, BlockRole::Method, m.methods@)
    &&& in_block_order(bs, BlockRole::Property, m.properties@)
    &&& module_in_section(bs, k, m)
}

/// Every member of `m`, the module at index `k`, was read from a block of its
/// own kind within that module's section.
pub open spec fn module_in_section(bs: Seq<BlockParts>, k: int, m: ApiModule) -> bool {
    &&& forall|j: int|
        0 <= j < m.methods@.len() ==> member_from(
            bs,
            k,
            BlockRole::Method,
            #[trigger] m.methods@[j],
        )
    &&& forall|j: int|
        0 <= j < m.properties@.len() ==> member_from(
            bs,
            k,
            BlockRole::Property,
            #[trigger] m.properties@[j],
        )
}

/// Every member of every module was read from a block of its own kind within
/// that module's section.
pub open spec fn members_from(bs: Seq<BlockParts>, ms: Seq<ApiModule>) -> bool {
    forall|k: int| 0 <= k < ms.len() ==> module_from(bs, k, #[trigger] ms[k])
}

/// Splits a member's text, written `name: type`, into its trimmed name and its
/// type; a text without a top-level colon has a malformed type.
pub fn read_member(text: &str) -> (r: (String, Result<ValueShape, TypeParseError>))
    ensures
        member_read(text@, r.0@, r.1),
{
    let n = text.unicode_len();
    assert(text@.subrange(0, n as int) =~= text@);
    match find_top_level(text, 0, n, ':') {
        Some(c) => {
            let (a, b) = trim_range(text, 0, c);
            let name = text.substring_char(a, b).to_string();
            proof {
                lemma_trimmed_within(text@, 0, c as int, a as int, b as int);
                assert(trims_to(text@.subrange(0, c as int), name@));
            }
            (name, parse_range(text, c + 1, n))
        },
        None => {
            let (a, b) = trim_range(text, 0, n);
            let name = text.substring_char(a, b).to_string();
            proof {
                lemma_trimmed_within(text@, 0, n as int, a as int, b as int);
                assert(trims_to(text@, name@));
            }
            (name, Err(TypeParseError::Malformed))
        },
    }
}

/// Appends a paragraph to a doc text, one line apart from what it holds.
fn add_paragraph(doc: &mut String, p: &str)
    ensures
        old(doc)@.len() == 0 ==> final(doc)@ == p@,
        old(doc)@.len() > 0 ==> final(doc)@ == old(doc)@ + "\n"@ + p@,
{
    if doc.as_str().unicode_len() > 0 {
        doc.append("\n");
    }
    doc.append(p);
}

/// Groups the root's child blocks into modules: each heading opens a module,
/// each method or property marker opens a member of the current module, and
/// text blocks extend the doc of the latest module or member. Blocks before
/// the first heading belong to no module. A member whose type cannot be read
/// keeps an unknown shape, and a warning records why.
#[verifier::rlimit(100)]
pub fn classify(root: Option<&Vec<DocBlock>>) -> (r: Result<Classified, ClassifyError>)
    ensures
        match root {
            None => r matches Err(ClassifyError::MissingRoot),
            Some(bs) => if heading_names(all_parts(bs@)).len() == 0 {
                r matches Err(ClassifyError::NoModules)
            } else {
                r matches Ok(c) && module_names(c.modules@) == heading_names(all_parts(bs@)) && (
                forall|k: int|
                    0 <= k < c.modules@.len() ==> members_named(#[trigger] c.modules@[k]))
                    && tally(c.modules@) + c.warnings@.len() == member_blocks(all_parts(bs@))
                    && c.warnings@.len() == unknowns(c.modules@) + unnamed(c.warnings@)
                    && members_from(all_parts(bs@), c.modules@) && forall|w: int|
                    0 <= w < c.warnings@.len() ==> warning_from(all_parts(bs@), #[trigger] c.warnings@[w])
            },
        },
{
    let bs = match root {
        None => {
            return Err(ClassifyError::MissingRoot);
        },
        Some(bs) => bs,
    };
    let mut modules: Vec<ApiModule> = Vec::new();
    let mut warnings: Vec<Warning> = Vec::new();
    let mut has_module = false;
    let mut cur = ApiModule::new(String::new(), String::new());
    let mut has_member = false;
    let mut member_is_method = false;
    let mut member = MemberDescription { name: String::new(), doc: String::new(), shape: None };
    let mut i: usize = 0;
    let ghost mut cur_mi: Seq<int> = Seq::empty();
    let ghost mut cur_pi: Seq<int> = Seq::empty();
    let ghost mut mem_i: int = 0;
    assert(all_parts(bs@.take(0)) =~= Seq::<BlockParts>::empty());
    assert(module_names(modules@) =~= Seq::<Seq<char>>::empty());
    while i < bs.len()
        invariant
            i <= bs.len(),
            !has_module ==> modules@.len() == 0,
            has_member ==> has_module && member.name@.len() > 0,
            module_names(modules@) + (if has_module {
                seq![cur.name@]
            } else {
                Seq::empty()
            }) == heading_names(all_parts(bs@.take(i as int))),
            forall|k: int| 0 <= k < modules@.len() ==> members_named(#[trigger] modules@[k]),
            members_named(cur),
            !has_module ==> cur.methods@.len() == 0 && cur.properties@.len() == 0,
            warnings@.len() == unknowns(modules@) + module_unknowns(cur) + (if has_member
                && member.shape is None {
                1int
            } else {
                0int
            }) + unnamed(warnings@),
            tally(modules@) + module_tally(cur) + (if has_member && member.shape is Some {
                1int
            } else {
                0int
            }) + warnings@.len() == member_blocks(all_parts(bs@.take(i as int))),
            members_from(all_parts(bs@), modules@),
            module_in_section(all_parts(bs@), modules@.len() as int, cur),
            has_member ==> member_from(
                all_parts(bs@),
                modules@.len() as int,
                if member_is_method {
                    BlockRole::Method
                } else {
                    BlockRole::Property
                },
                member,
            ),
            forall|w: int| 0 <= w < warnings@.len() ==> warning_from(all_parts(bs@), #[trigger] warnings@[w]),
            bs@.len() == all_parts(bs@).len(),
            indexed(all_parts(bs@), BlockRole::Method, cur.methods@, cur_mi),
            indexed(all_parts(bs@), BlockRole::Property, cur.properties@, cur_pi),
            forall|j: int| 0 <= j < cur_mi.len() ==> #[trigger] cur_mi[j] < i,
            forall|j: int| 0 <= j < cur_pi.len() ==> #[trigger] cur_pi[j] < i,
            has_member ==> mem_i < i && member_at(
                all_parts(bs@),
                mem_i,
                if member_is_method {
                    BlockRole::Method
                } else {
                    BlockRole::Property
                },
                member,
            ) && (forall|j: int| 0 <= j < cur_mi.len() ==> #[trigger] cur_mi[j] < mem_i) && (
            forall|j: int| 0 <= j < cur_pi.len() ==> #[trigger] cur_pi[j] < mem_i)
                && member.doc@ == joined_text(all_parts(bs@), mem_i + 1, i as int) && (forall|k: int|
                mem_i + 1 <= k < i ==> role_of(#[trigger] all_parts(bs@)[k]) == BlockRole::Text),
        decreases bs.len() - i,
    {
        assert(all_parts(bs@.take(i + 1)).drop_last() =~= all_parts(bs@.take(i as int)));
        assert(all_parts(bs@.take(i + 1)).last() == parts_of(bs@[i as int]));
        let role = block_role(&bs[i]);
        if has_member && role != BlockRole::Text {
            let m = member;
            member = MemberDescription { name: String::new(), doc: String::new(), shape: None };
            proof {
                lemma_unknown_push(cur.methods@, m);
                lemma_unknown_push(cur.properties@, m);
            }
            let ghost old_cur = cur;
            if member_is_method {
                cur.methods.push(m);
            } else {
                cur.properties.push(m);
            }
            proof {
                assert(all_parts(bs@)[i as int] == parts_of(bs@[i as int]));
                assert(text_run(all_parts(bs@), mem_i + 1, i as int));
                assert(doc_at(all_parts(bs@), mem_i, m));
                if member_is_method {
                    let old_mi = cur_mi;
                    cur_mi = cur_mi.push(mem_i);
                    assert(forall|j: int| 0 <= j < old_mi.len() ==> cur_mi[j] == old_mi[j]);
                } else {
                    let old_pi = cur_pi;
                    cur_pi = cur_pi.push(mem_i);
                    assert(forall|j: int| 0 <= j < old_pi.len() ==> cur_pi[j] == old_pi[j]);
                }
                assert(forall|j: int|
                    0 <= j < old_cur.methods@.len() ==> cur.methods@[j] == old_cur.methods@[j]);
                assert(forall|j: int|
                    0 <= j < old_cur.properties@.len() ==> cur.properties@[j]
                        == old_cur.properties@[j]);
            }
            has_member = false;
        }
        match role {
            BlockRole::ModuleHeading => {
                let ghost before = modules@;
                if has_module {
                    let done = cur;
                    cur = ApiModule::new(String::new(), String::new());
                    proof {
                        lemma_tally_push(modules@, done);
                        assert(indexed(all_parts(bs@), BlockRole::Method, done.methods@, cur_mi));
                        assert(indexed(all_parts(bs@), BlockRole::Property, done.properties@, cur_pi));
                    }
                    modules.push(done);
                    assert(forall|k: int| 0 <= k < before.len() ==> modules@[k] == before[k]);
                    assert(module_names(modules@) =~= module_names(before).push(done.name@));
                }
                cur = ApiModule::new(bs[i].text.clone(), String::new());
                has_module = true;
                proof {
                    cur_mi = Seq::empty();
                    cur_pi = Seq::empty();
                }
                assert(module_names(modules@) + seq![cur.name@] =~= heading_names(
                    all_parts(bs@.take(i as int)),
                ).push(cur.name@));
            },
            BlockRole::Method | BlockRole::Property => {
                if has_module {
                    let (name, parsed) = read_member(bs[i].text.as_str());
                    assert(all_parts(bs@)[i as int] == parts_of(bs@[i as int]));
                    assert(module_names(modules@).len() == modules@.len());
                    assert(all_parts(bs@).take(i as int) =~= all_parts(bs@.take(i as int)));
                    assert(from_block(all_parts(bs@), modules@.len() as int, role, name@, parsed));
                    if name.as_str().unicode_len() == 0 {
                        let ghost before = warnings@;
                        let w = Warning { member: name, error: TypeParseError::Malformed };
                        assert(role == BlockRole::Method || role == BlockRole::Property);
                        assert(from_block(
                            all_parts(bs@),
                            modules@.len() as int,
                            role,
                            w.member@,
                            parsed,
                        ));
                        assert(warning_from(all_parts(bs@), w));
                        proof {
                            lemma_unnamed_push(warnings@, w);
                        }
                        warnings.push(w);
                        assert(forall|k: int| 0 <= k < before.len() ==> warnings@[k] == before[k]);
                    } else {
                        let ghost pr = parsed;
                        let shape = match parsed {
                            Ok(v) => Some(v),
                            Err(e) => {
                                let ghost before = warnings@;
                                let w = Warning { member: name.clone(), error: e };
                                assert(role == BlockRole::Method || role == BlockRole::Property);
                                assert(from_block(
                            all_parts(bs@),
                            modules@.len() as int,
                            role,
                            w.member@,
                            parsed,
                        ));
                                assert(warning_from(all_parts(bs@), w));
                                proof {
                                    lemma_unnamed_push(warnings@, w);
                                }
                                warnings.push(w);
                                assert(forall|k: int|
                                    0 <= k < before.len() ==> warnings@[k] == before[k]);
                                None
                            },
                        };
                        member = MemberDescription { name, doc: String::new(), shape };
                        member_is_method = role == BlockRole::Method;
                        has_member = true;
                        proof {
                            assert(from_block(
                                all_parts(bs@),
                                modules@.len() as int,
                                role,
                                member.name@,
                                pr,
                            ));
                            if pr is Err {
                                assert(from_block(
                                    all_parts(bs@),
                                    modules@.len() as int,
                                    role,
                                    member.name@,
                                    Err(pr->Err_0),
                                ));
                            }
                        }
                        assert(member_from(all_parts(bs@), modules@.len() as int, role, member));
                        proof {
                            mem_i = i as int;
                            if pr is Err {
                                assert(member_read(
                                    all_parts(bs@)[i as int].2,
                                    member.name@,
                                    Err(pr->Err_0),
                                ));
                            }
                        }
                        assert((if member_is_method {
                            BlockRole::Method
                        } else {
                            BlockRole::Property
                        }) == role);
                    }
                }
            },
            BlockRole::Text => {
                if has_member {
                    let ghost m0 = member;
                    add_paragraph(&mut member.doc, bs[i].text.as_str());
                    assert(member.name == m0.name && member.shape == m0.shape);
                    assert(all_parts(bs@)[i as int] == parts_of(bs@[i as int]));
                    assert(member.doc@ =~= joined_text(all_parts(bs@), mem_i + 1, i + 1));
                } else if has_module {
                    add_paragraph(&mut cur.doc, bs[i].text.as_str());
                }
            },
        }
        i = i + 1;
    }
    assert(bs@.take(bs@.len() as int) =~= bs@);
    proof {
        lemma_unknown_push(cur.methods@, member);
        lemma_unknown_push(cur.properties@, member);
    }
    if has_member {
        let ghost old_cur = cur;
        if member_is_method {
            cur.methods.push(member);
        } else {
            cur.properties.push(member);
        }
        proof {
            assert(text_run(all_parts(bs@), mem_i + 1, bs@.len() as int));
            assert(doc_at(all_parts(bs@), mem_i, member));
            if member_is_method {
                let old_mi = cur_mi;
                cur_mi = cur_mi.push(mem_i);
                assert(forall|j: int| 0 <= j < old_mi.len() ==> cur_mi[j] == old_mi[j]);
            } else {
                let old_pi = cur_pi;
                cur_pi = cur_pi.push(mem_i);
                assert(forall|j: int| 0 <= j < old_pi.len() ==> cur_pi[j] == old_pi[j]);
            }
        }
    }
    if !has_module {
        return Err(ClassifyError::NoModules);
    }
    let ghost before = modules@;
    proof {
        lemma_tally_push(modules@, cur);
        assert(indexed(all_parts(bs@), BlockRole::Method, cur.methods@, cur_mi));
        assert(indexed(all_parts(bs@), BlockRole::Property, cur.properties@, cur_pi));
    }
    modules.push(cur);
    assert(module_names(modules@) =~= module_names(before).push(cur.name@));
    Ok(Classified { modules, warnings })
}

} // verus!
