//! The artifact store: extracted files by identity, where a later file with the
//! same identity replaces the earlier one, and the names under which they are
//! written out.

use crate::carve::{extension_text, FileKind};
use crate::text::{
    chars_of, decimal, decimal_string, lemma_decimal_digits, lemma_decimal_injective, texts,
};
use vstd::prelude::*;
use vstd::string::{StrSliceExecFns, StringExecFns};

verus! {

/// An extracted file: the identity it was found under and its bytes.
pub struct Artifact {
    pub identity: String,
    pub content: Vec<u8>,
}

/// An `Artifact` as text and bytes.
pub struct ArtifactModel {
    pub identity: Seq<char>,
    pub content: Seq<u8>,
}

impl View for Artifact {
    type V = ArtifactModel;

    open spec fn view(&self) -> ArtifactModel {
        ArtifactModel { identity: self.identity@, content: self.content@ }
    }
}

/// `items` holds an artifact with this identity.
pub open spec fn holds_identity(items: Seq<ArtifactModel>, identity: Seq<char>) -> bool {
    exists|i: int| 0 <= i < items.len() && items[i].identity == identity
}

/// The position of the artifact with this identity, when there is one.
pub open spec fn place(items: Seq<ArtifactModel>, identity: Seq<char>) -> int {
    choose|i: int| 0 <= i < items.len() && items[i].identity == identity
}

/// No two artifacts have the same identity.
pub open spec fn distinct_identities(items: Seq<ArtifactModel>) -> bool {
    forall|i: int, j: int| 0 <= i < j < items.len() ==> items[i].identity != items[j].identity
}

/// The artifacts after one more has been stored: it takes the place of the one
/// with the same identity, or comes last where there is none.
pub open spec fn put_into(
    items: Seq<ArtifactModel>,
    identity: Seq<char>,
    content: Seq<u8>,
) -> Seq<ArtifactModel> {
    if holds_identity(items, identity) {
        items.update(place(items, identity), ArtifactModel { identity, content })
    } else {
        items.push(ArtifactModel { identity, content })
    }
}

/// The length of `path` without what it ends with and names nothing: slashes,
/// and a dot that follows a slash.
pub open spec fn trimmed_len(path: Seq<char>) -> int
    decreases path.len(),
{
    if path.len() > 0 && path.last() == '/' {
        trimmed_len(path.drop_last())
    } else if path.len() >= 2 && path.last() == '.' && path[path.len() - 2] == '/' {
        trimmed_len(path.drop_last())
    } else {
        path.len() as int
    }
}

/// The index after the last slash before `end`, or zero where there is none.
pub open spec fn name_start(path: Seq<char>, end: int) -> int
    decreases end,
{
    if end <= 0 {
        0
    } else if path[end - 1] == '/' {
        end
    } else {
        name_start(path, end - 1)
    }
}

/// The last component of `path`: what stands between the last slash and the
/// end, where trailing slashes and a trailing `/.` are left aside.
pub open spec fn base_name(path: Seq<char>) -> Seq<char> {
    let end = trimmed_len(path);
    path.subrange(name_start(path, end), end)
}

/// The file name that an identity is written out under: its last component,
/// unless that is empty, `.` or `..`, which name no file.
pub open spec fn file_name(identity: Seq<char>) -> Option<Seq<char>> {
    let name = base_name(identity);
    if name.len() == 0 || name == seq!['.'] || name == seq!['.', '.'] {
        None
    } else {
        Some(name)
    }
}

/// `name` inside the directory `dir`.
pub open spec fn joined(dir: Seq<char>, name: Seq<char>) -> Seq<char> {
    if dir.len() == 0 {
        name
    } else if dir.last() == '/' {
        dir + name
    } else {
        dir + seq!['/'] + name
    }
}

/// The identity of the carved file with this number and kind.
pub open spec fn carved_name(token: nat, kind: FileKind) -> Seq<char> {
    "carved_"@ + decimal(token) + seq!['.'] + extension_text(kind)
}

/// A file to write: its name inside the export directory and its bytes.
pub struct ExportItem {
    pub file_name: String,
    pub content: Vec<u8>,
}

/// An `ExportItem` as text and bytes.
pub struct ExportModel {
    pub file_name: Seq<char>,
    pub content: Seq<u8>,
}

impl View for ExportItem {
    type V = ExportModel;

    open spec fn view(&self) -> ExportModel {
        ExportModel { file_name: self.file_name@, content: self.content@ }
    }
}

/// The files to write for `items`: one for each artifact whose identity gives a
/// file name, in the order of the artifacts.
pub open spec fn plan_of(items: Seq<ArtifactModel>) -> Seq<ExportModel>
    decreases items.len(),
{
    if items.len() == 0 {
        Seq::empty()
    } else {
        let head = plan_of(items.drop_last());
        match file_name(items.last().identity) {
            Some(name) => head.push(ExportModel { file_name: name, content: items.last().content }),
            None => head,
        }
    }
}

/// The paths of the files of a plan inside `dir`.
pub open spec fn manifest_of(plan: Seq<ExportModel>, dir: Seq<char>) -> Seq<Seq<char>> {
    Seq::new(plan.len(), |i: int| joined(dir, plan[i].file_name))
}

/// Finds where the last component of a path stands.
fn name_range(chars: &Vec<char>) -> (r: (usize, usize))
    ensures
        r.0 == name_start(chars@, trimmed_len(chars@)),
        r.1 == trimmed_len(chars@),
        r.0 <= r.1 <= chars@.len(),
{
    let mut end: usize = chars.len();
    assert(chars@.take(end as int) =~= chars@);
    while end > 0 && (chars[end - 1] == '/' || (end >= 2 && chars[end - 1] == '.' && chars[end
        - 2] == '/'))
        invariant
            end <= chars@.len(),
            trimmed_len(chars@) == trimmed_len(chars@.take(end as int)),
        decreases end,
    {
        proof {
            let upto = chars@.take(end as int);
            assert(upto.drop_last() =~= chars@.take(end - 1));
            assert(upto.last() == chars@[end - 1]);
            if end >= 2 {
                assert(upto[upto.len() - 2] == chars@[end - 2]);
            }
        }
        end -= 1;
    }
    proof {
        let upto = chars@.take(end as int);
        if end > 0 {
            assert(upto.last() == chars@[end - 1]);
        }
        if end >= 2 {
            assert(upto[upto.len() - 2] == chars@[end - 2]);
        }
        assert(trimmed_len(chars@) == end);
    }
    let mut start: usize = end;
    while start > 0 && chars[start - 1] != '/'
        invariant
            start <= end <= chars@.len(),
            name_start(chars@, end as int) == name_start(chars@, start as int),
        decreases start,
    {
        start -= 1;
    }
    (start, end)
}

/// Derives the file name of an identity; `None` where it gives none.
pub fn file_name_of(identity: &str) -> (r: Option<String>)
    ensures
        match r {
            Some(name) => file_name(identity@) == Some(name@),
            None => file_name(identity@) is None,
        },
{
    let chars = chars_of(identity);
    let (start, end) = name_range(&chars);
    let len: usize = end - start;
    let ghost name = chars@.subrange(start as int, end as int);
    assert(name == base_name(identity@));
    if len == 0 || (len == 1 && chars[start] == '.') || (len == 2 && chars[start] == '.'
        && chars[start + 1] == '.') {
        proof {
            if len == 1 {
                assert(name =~= seq!['.']);
            } else if len == 2 {
                assert(name =~= seq!['.', '.']);
            }
        }
        None
    } else {
        proof {
            if name == seq!['.'] {
                assert(name[0] == '.');
            }
            if name == seq!['.', '.'] {
                assert(name[0] == '.' && name[1] == '.');
            }
        }
        Some(String::from_str(identity.substring_char(start, end)))
    }
}

/// Why an artifact cannot be written out.
#[derive(Clone, Copy, Debug, PartialEq, Eq, Structural)]
pub enum ExportError {
    /// The identity gives no usable file name.
    InvalidIdentity,
}

impl ExportError {
    /// What to tell the operator.
    pub fn message(&self) -> (text: String)
        ensures
            text@ == "Invalid file path"@,
    {
        String::from_str("Invalid file path")
    }
}

/// The path that an artifact is written to inside `dir`.
pub open spec fn export_target(identity: Seq<char>, dir: Seq<char>) -> Result<
    Seq<char>,
    ExportError,
> {
    match file_name(identity) {
        Some(name) => Ok(joined(dir, name)),
        None => Err(ExportError::InvalidIdentity),
    }
}

/// Decides where the artifact with this identity is written inside the
/// directory `dir`; fails where the identity gives no usable file name.
pub fn export_path(identity: &str, dir: &str) -> (r: Result<String, ExportError>)
    ensures
        match r {
            Ok(path) => export_target(identity@, dir@) == Ok::<Seq<char>, ExportError>(path@),
            Err(e) => export_target(identity@, dir@) == Err::<Seq<char>, ExportError>(e),
        },
{
    match file_name_of(identity) {
        Some(name) => Ok(join_path(dir, name.as_str())),
        None => Err(ExportError::InvalidIdentity),
    }
}

/// The path with its last component replaced by `name`.
pub open spec fn sibling(path: Seq<char>, name: Seq<char>) -> Seq<char> {
    path.subrange(0, name_start(path, trimmed_len(path))) + name
}

/// The directory that the files extracted from a capture are written to: the
/// directory `extracted_files` beside the capture file.
pub fn export_directory(capture_path: &str) -> (dir: String)
    ensures
        dir@ == sibling(capture_path@, "extracted_files"@),
{
    let chars = chars_of(capture_path);
    let (start, _end) = name_range(&chars);
    let mut dir = String::from_str(capture_path.substring_char(0, start));
    dir.append("extracted_files");
    dir
}

/// Puts `name` inside the directory `dir`.
pub fn join_path(dir: &str, name: &str) -> (path: String)
    ensures
        path@ == joined(dir@, name@),
{
    let chars = chars_of(dir);
    let mut path = String::from_str(dir);
    if chars.len() > 0 && chars[chars.len() - 1] != '/' {
        proof {
            reveal_strlit("/");
        }
        path.append("/");
        assert(path@ =~= dir@ + seq!['/']);
    }
    path.append(name);
    assert(path@ =~= joined(dir@, name@));
    path
}

/// The extracted files of one analysis run, in the order in which their
/// identities were first stored.
pub struct ArtifactStore {
    items: Vec<Artifact>,
    carved: u64,
}

impl ArtifactStore {
    /// No identity is held twice.
    pub closed spec fn wf(&self) -> bool {
        forall|i: int, j: int|
            0 <= i < j < self.items@.len() ==> self.items@[i].identity@ != self.items@[j].identity@
    }

    /// The artifacts in the order in which their identities were first stored.
    pub closed spec fn view(&self) -> Seq<ArtifactModel> {
        Seq::new(self.items@.len(), |i: int| self.items@[i]@)
    }

    /// The number that the next carved file is named with.
    pub closed spec fn next_token(&self) -> nat {
        self.carved as nat
    }

    /// In a well-formed store no identity occurs twice.
    pub proof fn lemma_distinct_identities(&self)
        requires
            self.wf(),
        ensures
            distinct_identities(self@),
    {
    }

    /// A store that holds nothing.
    pub fn new() -> (s: ArtifactStore)
        ensures
            s.wf(),
            s@ == Seq::<ArtifactModel>::empty(),
            s.next_token() == 0,
    {
        let s = ArtifactStore { items: Vec::new(), carved: 0 };
        assert(s@ =~= Seq::<ArtifactModel>::empty());
        s
    }

    /// The number of artifacts held.
    pub fn len(&self) -> (n: usize)
        ensures
            n == self@.len(),
    {
        self.items.len()
    }

    /// Where the artifact with this identity is held, if there is one.
    fn position(&self, identity: &String) -> (r: Option<usize>)
        requires
            self.wf(),
        ensures
            match r {
                Some(i) => holds_identity(self@, identity@) && i == place(self@, identity@) && i
                    < self.items@.len(),
                None => !holds_identity(self@, identity@),
            },
    {
        let mut i: usize = 0;
        while i < self.items.len()
            invariant
                self.wf(),
                i <= self.items@.len(),
                forall|j: int| 0 <= j < i ==> self@[j].identity != identity@,
            decreases self.items@.len() - i,
        {
            if self.items[i].identity == *identity {
                proof {
                    assert(self@[i as int].identity == identity@);
                    let j = place(self@, identity@);
                    assert(self@[j].identity == identity@);
                    if i < j {
                        assert(self.items@[i as int].identity@ != self.items@[j].identity@);
                    }
                }
                return Some(i);
            }
            i += 1;
        }
        None
    }

    /// The bytes stored under this identity, if any are.
    pub fn content_of(&self, identity: &String) -> (r: Option<&Vec<u8>>)
        requires
            self.wf(),
        ensures
            match r {
                Some(bytes) => holds_identity(self@, identity@) && bytes@ == self@[place(
                    self@,
                    identity@,
                )].content,
                None => !holds_identity(self@, identity@),
            },
    {
        match self.position(identity) {
            Some(i) => Some(&self.items[i].content),
            None => None,
        }
    }

    /// Stores `content` under `identity`. Where the identity is already held the
    /// new bytes replace the old ones; the store never holds an identity twice.
    pub fn put(&mut self, identity: String, content: Vec<u8>)
        requires
            old(self).wf(),
        ensures
            final(self).wf(),
            final(self)@ == put_into(old(self)@, identity@, content@),
            final(self).next_token() == old(self).next_token(),
    {
        match self.position(&identity) {
            Some(i) => {
                self.items.set(i, Artifact { identity, content });
                assert(self@ =~= put_into(old(self)@, identity@, content@));
            },
            None => {
                self.items.push(Artifact { identity, content });
                assert forall|a: int, b: int|
                    0 <= a < b < self.items@.len() implies self.items@[a].identity@
                    != self.items@[b].identity@ by {
                    if b == self.items@.len() - 1 {
                        assert(old(self)@[a].identity != identity@);
                    }
                }
                assert(self@ =~= put_into(old(self)@, identity@, content@));
            },
        }
    }

    /// Stores a carved file under a name made of the next number and the kind's
    /// extension, and moves on to the next number. When the numbers are used up
    /// nothing is stored and `false` is returned.
    pub fn put_carved(&mut self, kind: FileKind, content: Vec<u8>) -> (stored: bool)
        requires
            old(self).wf(),
        ensures
            final(self).wf(),
            stored == (old(self).next_token() < u64::MAX),
            stored ==> final(self)@ == put_into(
                old(self)@,
                carved_name(old(self).next_token(), kind),
                content@,
            ) && final(self).next_token() == old(self).next_token() + 1,
            !stored ==> final(self)@ == old(self)@ && final(self).next_token() == old(
                self,
            ).next_token(),
    {
        if self.carved == u64::MAX {
            return false;
        }
        let mut identity = String::from_str("carved_");
        identity.append(decimal_string(self.carved).as_str());
        proof {
            reveal_strlit(".");
        }
        identity.append(".");
        identity.append(kind.extension());
        assert(identity@ =~= carved_name(self.carved as nat, kind));
        self.put(identity, content);
        self.carved = self.carved + 1;
        true
    }

    /// The files to write out: one for each artifact whose identity gives a file
    /// name, in the order of the artifacts. An artifact without one is left out.
    pub fn export_plan(&self) -> (plan: Vec<ExportItem>)
        requires
            self.wf(),
        ensures
            plan.deep_view() == plan_of(self@),
    {
        let mut plan: Vec<ExportItem> = Vec::new();
        let mut i: usize = 0;
        assert(self@.take(0) =~= Seq::<ArtifactModel>::empty());
        assert(plan.deep_view() =~= plan_of(self@.take(0)));
        while i < self.items.len()
            invariant
                i <= self.items@.len(),
                plan.deep_view() == plan_of(self@.take(i as int)),
            decreases self.items@.len() - i,
        {
            let ghost before = plan.deep_view();
            proof {
                assert(self@.take(i + 1).drop_last() =~= self@.take(i as int));
                assert(self@.take(i + 1).last() == self.items@[i as int]@);
            }
            match file_name_of(self.items[i].identity.as_str()) {
                Some(name) => {
                    let content = self.items[i].content.clone();
                    plan.push(ExportItem { file_name: name, content });
                    assert(plan.deep_view() =~= before.push(
                        ExportModel { file_name: name@, content: self.items@[i as int].content@ },
                    ));
                },
                None => {},
            }
            i += 1;
        }
        assert(self@.take(i as int) =~= self@);
        plan
    }
}

impl DeepView for ExportItem {
    type V = ExportModel;

    open spec fn deep_view(&self) -> ExportModel {
        self@
    }
}

/// The paths that the files of a plan get inside `dir`, in the plan's order.
pub fn manifest(plan: &Vec<ExportItem>, dir: &str) -> (paths: Vec<String>)
    ensures
        texts(paths@) == manifest_of(plan.deep_view(), dir@),
{
    let mut paths: Vec<String> = Vec::new();
    let mut i: usize = 0;
    while i < plan.len()
        invariant
            i <= plan@.len(),
            paths@.len() == i,
            forall|j: int|
                0 <= j < i ==> (#[trigger] paths@[j])@ == joined(dir@, plan@[j].file_name@),
        decreases plan@.len() - i,
    {
        paths.push(join_path(dir, plan[i].file_name.as_str()));
        i += 1;
    }
    assert(texts(paths@) =~= manifest_of(plan.deep_view(), dir@));
    paths
}

/// Last write wins: storing twice under one identity leaves what storing the
/// second content alone leaves, which holds that identity once, with the second
/// content.
pub proof fn lemma_last_write_wins(
    items: Seq<ArtifactModel>,
    identity: Seq<char>,
    first: Seq<u8>,
    second: Seq<u8>,
)
    requires
        distinct_identities(items),
    ensures
        put_into(put_into(items, identity, first), identity, second) == put_into(
            items,
            identity,
            second,
        ),
        distinct_identities(put_into(items, identity, second)),
        forall|i: int|
            0 <= i < put_into(items, identity, second).len() ==> (#[trigger] put_into(
                items,
                identity,
                second,
            )[i]).identity == identity ==> i == place(put_into(items, identity, second), identity),
        put_into(items, identity, second)[place(
            put_into(items, identity, second),
            identity,
        )].content == second,
{
    let once = put_into(items, identity, first);
    let last = put_into(items, identity, second);
    let at = if holds_identity(items, identity) {
        place(items, identity)
    } else {
        items.len() as int
    };
    assert(once[at].identity == identity);
    assert(last[at].identity == identity);
    lemma_put_keeps_distinct(items, identity, first);
    lemma_put_keeps_distinct(items, identity, second);
    let found = place(once, identity);
    assert(once[found].identity == identity);
    assert(found == at) by {
        if found < at {
            assert(once[found].identity != once[at].identity);
        } else if at < found {
            assert(once[at].identity != once[found].identity);
        }
    }
    let found_last = place(last, identity);
    assert(last[found_last].identity == identity);
    assert(found_last == at) by {
        if found_last < at {
            assert(last[found_last].identity != last[at].identity);
        } else if at < found_last {
            assert(last[at].identity != last[found_last].identity);
        }
    }
    assert(put_into(once, identity, second) =~= last);
    assert forall|i: int| 0 <= i < last.len() && (#[trigger] last[i]).identity == identity implies i
        == found_last by {
        if i < at {
            assert(last[i].identity != last[at].identity);
        } else if at < i {
            assert(last[at].identity != last[i].identity);
        }
    }
}

/// Storing keeps the identities distinct.
pub proof fn lemma_put_keeps_distinct(
    items: Seq<ArtifactModel>,
    identity: Seq<char>,
    content: Seq<u8>,
)
    requires
        distinct_identities(items),
    ensures
        distinct_identities(put_into(items, identity, content)),
        holds_identity(put_into(items, identity, content), identity),
{
    let next = put_into(items, identity, content);
    let at = if holds_identity(items, identity) {
        place(items, identity)
    } else {
        items.len() as int
    };
    assert(next[at].identity == identity);
    assert forall|i: int, j: int| 0 <= i < j < next.len() implies next[i].identity
        != next[j].identity by {
        if j < items.len() {
            assert(items[i].identity != items[j].identity);
        } else {
            assert(items[i].identity != identity);
        }
    }
}

/// Carved files never collide: different numbers give different names,
/// whatever the kinds.
pub proof fn lemma_carved_names_distinct(a: nat, kind_a: FileKind, b: nat, kind_b: FileKind)
    requires
        a != b,
    ensures
        carved_name(a, kind_a) != carved_name(b, kind_b),
{
    if carved_name(a, kind_a) == carved_name(b, kind_b) {
        let prefix = "carved_"@;
        let da = decimal(a);
        let db = decimal(b);
        let ta = da + seq!['.'] + extension_text(kind_a);
        let tb = db + seq!['.'] + extension_text(kind_b);
        let na = carved_name(a, kind_a);
        let nb = carved_name(b, kind_b);
        assert(na.subrange(prefix.len() as int, na.len() as int) =~= ta);
        assert(nb.subrange(prefix.len() as int, nb.len() as int) =~= tb);
        assert(ta == tb);
        lemma_decimal_digits(a);
        lemma_decimal_digits(b);
        if da.len() < db.len() {
            assert(ta[da.len() as int] == '.');
            assert(tb[da.len() as int] == db[da.len() as int]);
        } else if db.len() < da.len() {
            assert(tb[db.len() as int] == '.');
            assert(ta[db.len() as int] == da[db.len() as int]);
        } else {
            assert(ta.subrange(0, da.len() as int) =~= da);
            assert(tb.subrange(0, db.len() as int) =~= db);
            lemma_decimal_injective(a, b);
        }
    }
}

} // verus!
