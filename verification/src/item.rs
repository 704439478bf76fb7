use vstd::prelude::*;

use crate::strings::{push_str, str_equal, to_string};
use crate::utils::{flatten_pipe_patterns, flatten_pipe_spec};

verus! {

#[verifier::external_type_specification]
#[verifier::external_body]
pub struct ExGlobPattern(glob::Pattern);

/// `glob::Pattern::new(pattern)` succeeds.
pub uninterp spec fn glob_pattern_valid(pattern: Seq<char>) -> bool;

/// `glob::Pattern::new(pattern)` succeeds and the pattern matches `name`
/// (`Pattern::matches`, default match options).
pub uninterp spec fn glob_match(pattern: Seq<char>, name: Seq<char>) -> bool;

/// A glob pattern compiled from the text it keeps. Only `compile_glob`
/// makes one, so `compiled` is always the compilation of `text`.
pub struct GlobPattern {
    text: String,
    compiled: glob::Pattern,
}

impl GlobPattern {
    pub closed spec fn text(self) -> Seq<char> {
        self.text@
    }
}

/// `glob::Pattern::new(pattern)`, kept with its text. The contract claims
/// that it succeeds exactly when the pattern is valid (`glob_pattern_valid`)
/// and that the text kept is `pattern`.
#[verifier::external_body]
fn compile_glob(pattern: &str) -> (r: Option<GlobPattern>)
    ensures
        r is Some <==> glob_pattern_valid(pattern@),
        r matches Some(p) ==> p.text() == pattern@,
{
    match glob::Pattern::new(pattern) {
        Ok(compiled) => Some(GlobPattern { text: pattern.to_string(), compiled }),
        Err(_) => None,
    }
}

/// `glob::Pattern::matches(name)` on a compiled pattern. The contract claims
/// that the answer depends on the pattern's text and `name` alone; it is
/// named `glob_match`.
#[verifier::external_body]
fn glob_pattern_matches(p: &GlobPattern, name: &str) -> (r: bool)
    ensures
        r == glob_match(p.text(), name@),
{
    p.compiled.matches(name)
}

/// Some pattern of the list compiles and matches `name`.
pub open spec fn any_glob_match(patterns: Seq<Seq<char>>, name: Seq<char>) -> bool {
    exists|i: int|
        0 <= i < patterns.len() && glob_pattern_valid(patterns[i]) && glob_match(
            #[trigger] patterns[i],
            name,
        )
}

fn any_pattern_matches(patterns: &Vec<String>, name: &str) -> (r: bool)
    ensures
        r == any_glob_match(patterns@.map_values(|p: String| p@), name@),
{
    let ghost ps = patterns@.map_values(|p: String| p@);
    let mut i: usize = 0;
    while i < patterns.len()
        invariant
            i <= patterns@.len(),
            ps == patterns@.map_values(|p: String| p@),
            forall|j: int|
                0 <= j < i ==> !(glob_pattern_valid(#[trigger] ps[j]) && glob_match(ps[j], name@)),
        decreases patterns@.len() - i,
    {
        match compile_glob(patterns[i].as_str()) {
            Some(p) => {
                if glob_pattern_matches(&p, name) {
                    assert(glob_pattern_valid(ps[i as int]) && glob_match(ps[i as int], name@));
                    return true;
                }
            },
            None => {},
        }
        i = i + 1;
    }
    false
}

/// High-level item kind used by the core crate.
#[derive(Debug, Clone, Copy, PartialEq, Eq, Structural)]
pub enum ArchiveItemKind {
    Item,
    Collection,
}

/// Minimal file descriptor for Archive.org item files.
#[derive(Debug, Clone, PartialEq, Eq)]
pub struct ArchiveFile {
    pub identifier: String,
    pub name: String,
    pub size: Option<u64>,
    pub format: Option<String>,
    pub source: Option<String>,
    pub md5: Option<String>,
    pub sha1: Option<String>,
    pub crc32: Option<String>,
}

/// The content of an `ArchiveFile`.
pub struct FileView {
    pub identifier: Seq<char>,
    pub name: Seq<char>,
    pub size: Option<u64>,
    pub format: Option<Seq<char>>,
    pub source: Option<Seq<char>>,
    pub md5: Option<Seq<char>>,
    pub sha1: Option<Seq<char>>,
    pub crc32: Option<Seq<char>>,
}

pub open spec fn opt_view(o: Option<String>) -> Option<Seq<char>> {
    match o {
        Some(s) => Some(s@),
        None => None,
    }
}

impl View for ArchiveFile {
    type V = FileView;

    open spec fn view(&self) -> FileView {
        FileView {
            identifier: self.identifier@,
            name: self.name@,
            size: self.size,
            format: opt_view(self.format),
            source: opt_view(self.source),
            md5: opt_view(self.md5),
            sha1: opt_view(self.sha1),
            crc32: opt_view(self.crc32),
        }
    }
}

/// A file of `identifier` named `name`, with nothing else known.
pub open spec fn bare_file(identifier: Seq<char>, name: Seq<char>) -> FileView {
    FileView {
        identifier,
        name,
        size: None,
        format: None,
        source: None,
        md5: None,
        sha1: None,
        crc32: None,
    }
}

fn clone_opt(o: &Option<String>) -> (r: Option<String>)
    ensures
        r == *o,
{
    match o {
        Some(s) => Some(s.clone()),
        None => None,
    }
}

impl ArchiveFile {
    /// Construct a new file descriptor.
    pub fn new(identifier: &str, name: &str) -> (r: Self)
        ensures
            r@ == bare_file(identifier@, name@),
    {
        ArchiveFile {
            identifier: to_string(identifier),
            name: to_string(name),
            size: None,
            format: None,
            source: None,
            md5: None,
            sha1: None,
            crc32: None,
        }
    }

    /// A copy of this descriptor.
    pub fn duplicate(&self) -> (r: Self)
        ensures
            r == *self,
    {
        ArchiveFile {
            identifier: self.identifier.clone(),
            name: self.name.clone(),
            size: self.size,
            format: clone_opt(&self.format),
            source: clone_opt(&self.source),
            md5: clone_opt(&self.md5),
            sha1: clone_opt(&self.sha1),
            crc32: clone_opt(&self.crc32),
        }
    }
}

/// Minimal item descriptor for Archive.org entities.
#[derive(Debug, Clone, PartialEq, Eq)]
pub struct ArchiveItem {
    pub identifier: String,
    pub title: Option<String>,
    pub mediatype: Option<String>,
    pub exists: bool,
    pub files: Vec<ArchiveFile>,
}

/// The kind of an item with the given mediatype.
pub open spec fn item_kind(mediatype: Option<Seq<char>>) -> ArchiveItemKind {
    if mediatype == Some("collection"@) {
        ArchiveItemKind::Collection
    } else {
        ArchiveItemKind::Item
    }
}

/// The files derived on the fly from an item: EPUB, MOBI, DAISY and MARC.
pub open spec fn on_the_fly_files(id: Seq<char>) -> Seq<FileView> {
    seq![
        bare_file(id, id + ".epub"@),
        bare_file(id, id + ".mobi"@),
        bare_file(id, id + "_daisy.zip"@),
        bare_file(id, id + "_archive_marc.xml"@),
    ]
}

/// Whether `f` is selected by a name list and a format list, or else by the
/// include patterns (`has_patterns`: there are some) given whether some
/// include pattern (`included`) and some exclude pattern (`excluded`) match
/// its name.
pub open spec fn file_selected_given(
    f: FileView,
    files: Seq<Seq<char>>,
    formats: Seq<Seq<char>>,
    has_patterns: bool,
    included: bool,
    excluded: bool,
) -> bool {
    ||| files.contains(f.name)
    ||| (f.format matches Some(fmt) && formats.contains(fmt))
    ||| (has_patterns && included && !excluded)
}

/// Whether `f` is selected by a name list, a format list, include patterns
/// and exclude patterns (the patterns already split at `|`).
pub open spec fn file_selected(
    f: FileView,
    files: Seq<Seq<char>>,
    formats: Seq<Seq<char>>,
    patterns: Seq<Seq<char>>,
    excludes: Seq<Seq<char>>,
) -> bool {
    file_selected_given(
        f,
        files,
        formats,
        patterns.len() > 0,
        any_glob_match(patterns, f.name),
        any_glob_match(excludes, f.name),
    )
}

/// The files of `s` selected given, for each, whether an include pattern
/// (`included`) and an exclude pattern (`excluded`) match its name.
pub open spec fn select_given(
    s: Seq<FileView>,
    files: Seq<Seq<char>>,
    formats: Seq<Seq<char>>,
    has_patterns: bool,
    included: Seq<bool>,
    excluded: Seq<bool>,
) -> Seq<FileView>
    decreases s.len(),
{
    if s.len() == 0 {
        Seq::empty()
    } else {
        let rest = select_given(s.drop_last(), files, formats, has_patterns, included, excluded);
        let i = s.len() - 1;
        if file_selected_given(s.last(), files, formats, has_patterns, included[i], excluded[i]) {
            rest.push(s.last())
        } else {
            rest
        }
    }
}

pub open spec fn select_files(
    s: Seq<FileView>,
    files: Seq<Seq<char>>,
    formats: Seq<Seq<char>>,
    patterns: Seq<Seq<char>>,
    excludes: Seq<Seq<char>>,
) -> Seq<FileView>
    decreases s.len(),
{
    if s.len() == 0 {
        Seq::empty()
    } else {
        let rest = select_files(s.drop_last(), files, formats, patterns, excludes);
        if file_selected(s.last(), files, formats, patterns, excludes) {
            rest.push(s.last())
        } else {
            rest
        }
    }
}

pub open spec fn strings_view(v: Seq<String>) -> Seq<Seq<char>> {
    v.map_values(|s: String| s@)
}

/// What `matching_files` returns: the item's files (and the derived files
/// when `on_the_fly`), all of them when no name, format or include pattern is
/// given, else those selected, in order.
pub open spec fn matching_files_spec(
    item_files: Seq<FileView>,
    id: Seq<char>,
    files: Seq<Seq<char>>,
    formats: Seq<Seq<char>>,
    glob_pattern: Seq<Seq<char>>,
    exclude_pattern: Seq<Seq<char>>,
    on_the_fly: bool,
) -> Seq<FileView> {
    let all = if on_the_fly {
        item_files + on_the_fly_files(id)
    } else {
        item_files
    };
    if files.len() == 0 && formats.len() == 0 && glob_pattern.len() == 0 {
        all
    } else {
        select_files(
            all,
            files,
            formats,
            flatten_pipe_spec(glob_pattern),
            flatten_pipe_spec(exclude_pattern),
        )
    }
}

fn contains_str(v: &[String], s: &str) -> (r: bool)
    ensures
        r == strings_view(v@).contains(s@),
{
    let mut i: usize = 0;
    while i < v.len()
        invariant
            i <= v@.len(),
            forall|j: int| 0 <= j < i ==> v@[j]@ != s@,
        decreases v@.len() - i,
    {
        if str_equal(v[i].as_str(), s) {
            assert(strings_view(v@)[i as int] == s@);
            return true;
        }
        i = i + 1;
    }
    proof {
        if strings_view(v@).contains(s@) {
            let k = choose|k: int| 0 <= k < strings_view(v@).len() && strings_view(v@)[k] == s@;
            assert(v@[k]@ == s@);
        }
    }
    false
}

fn str_refs(v: &[String]) -> (r: Vec<&str>)
    ensures
        r@.map_values(|p: &str| p@) == strings_view(v@),
{
    let mut out: Vec<&str> = Vec::new();
    let mut i: usize = 0;
    while i < v.len()
        invariant
            i <= v@.len(),
            out@.map_values(|p: &str| p@) == strings_view(v@.take(i as int)),
        decreases v@.len() - i,
    {
        let ghost prev = out@;
        let r = v[i].as_str();
        out.push(r);
        assert(out@ == prev.push(r));
        assert(out@.map_values(|p: &str| p@) =~= prev.map_values(|p: &str| p@).push(r@));
        assert(strings_view(v@.take(i + 1)) =~= strings_view(v@.take(i as int)).push(v@[i as int]@));
        i = i + 1;
    }
    assert(v@.take(i as int) =~= v@);
    out
}

fn derived_file(identifier: &str, suffix: &str) -> (r: ArchiveFile)
    ensures
        r@ == bare_file(identifier@, identifier@ + suffix@),
{
    let mut name = to_string(identifier);
    push_str(&mut name, suffix);
    ArchiveFile::new(identifier, name.as_str())
}

proof fn lemma_select_given(
    s: Seq<FileView>,
    files: Seq<Seq<char>>,
    formats: Seq<Seq<char>>,
    patterns: Seq<Seq<char>>,
    excludes: Seq<Seq<char>>,
    included: Seq<bool>,
    excluded: Seq<bool>,
)
    requires
        included.len() >= s.len(),
        excluded.len() >= s.len(),
        forall|i: int|
            0 <= i < s.len() ==> #[trigger] included[i] == (patterns.len() > 0 && any_glob_match(
                patterns,
                s[i].name,
            )),
        forall|i: int|
            0 <= i < s.len() ==> #[trigger] excluded[i] == (included[i] && any_glob_match(
                excludes,
                s[i].name,
            )),
    ensures
        select_given(s, files, formats, patterns.len() > 0, included, excluded) == select_files(
            s,
            files,
            formats,
            patterns,
            excludes,
        ),
    decreases s.len(),
{
    if s.len() > 0 {
        let init = s.drop_last();
        assert forall|i: int| 0 <= i < init.len() implies #[trigger] included[i] == (patterns.len() > 0
            && any_glob_match(patterns, init[i].name)) by {
            assert(init[i] == s[i]);
        }
        assert forall|i: int| 0 <= i < init.len() implies #[trigger] excluded[i] == (included[i]
            && any_glob_match(excludes, init[i].name)) by {
            assert(init[i] == s[i]);
        }
        lemma_select_given(init, files, formats, patterns, excludes, included, excluded);
        let i = s.len() - 1;
        assert(included[i] == (patterns.len() > 0 && any_glob_match(patterns, s[i].name)));
        assert(excluded[i] == (included[i] && any_glob_match(excludes, s[i].name)));
    }
}

/// Select from `candidates` the files named in `files`, those whose format
/// is in `formats`, and, when there are include patterns (`has_patterns`),
/// those whose name some include pattern matches (`included`) and no exclude
/// pattern matches (`excluded`), in order.
pub fn select_matched_files(
    candidates: &[ArchiveFile],
    files: &[String],
    formats: &[String],
    has_patterns: bool,
    included: &[bool],
    excluded: &[bool],
) -> (r: Vec<ArchiveFile>)
    requires
        included@.len() == candidates@.len(),
        excluded@.len() == candidates@.len(),
    ensures
        r@.map_values(|f: ArchiveFile| f@) == select_given(
            candidates@.map_values(|f: ArchiveFile| f@),
            strings_view(files@),
            strings_view(formats@),
            has_patterns,
            included@,
            excluded@,
        ),
{
    let ghost all = candidates@.map_values(|f: ArchiveFile| f@);
    let ghost fs = strings_view(files@);
    let ghost fm = strings_view(formats@);
    let mut out: Vec<ArchiveFile> = Vec::new();
    let mut k: usize = 0;
    while k < candidates.len()
        invariant
            k <= candidates@.len(),
            included@.len() == candidates@.len(),
            excluded@.len() == candidates@.len(),
            all == candidates@.map_values(|f: ArchiveFile| f@),
            fs == strings_view(files@),
            fm == strings_view(formats@),
            out@.map_values(|f: ArchiveFile| f@) == select_given(
                all.take(k as int),
                fs,
                fm,
                has_patterns,
                included@,
                excluded@,
            ),
        decreases candidates@.len() - k,
    {
        let file = &candidates[k];
        let by_format = match &file.format {
            Some(fmt) => contains_str(formats, fmt.as_str()),
            None => false,
        };
        let selected = contains_str(files, file.name.as_str()) || by_format || (has_patterns
            && included[k] && !excluded[k]);
        proof {
            assert(all.take(k + 1).drop_last() =~= all.take(k as int));
            assert(all[k as int] == file@);
        }
        assert(selected == file_selected_given(file@, fs, fm, has_patterns, included@[k as int], excluded@[k as int]));
        if selected {
            let ghost prev = out@;
            let d = file.duplicate();
            out.push(d);
            assert(out@ == prev.push(d));
            assert(out@.map_values(|f: ArchiveFile| f@) =~= prev.map_values(|f: ArchiveFile| f@).push(
                d@,
            ));
        }
        k = k + 1;
    }
    assert(all.take(k as int) =~= all);
    out
}

impl ArchiveItem {
    /// Construct a new item descriptor: no title, no mediatype, not known to
    /// exist, no files.
    pub fn new(identifier: &str) -> (r: Self)
        ensures
            r.identifier@ == identifier@,
            r.title is None,
            r.mediatype is None,
            !r.exists,
            r.files@.len() == 0,
    {
        ArchiveItem {
            identifier: to_string(identifier),
            title: None,
            mediatype: None,
            exists: false,
            files: Vec::new(),
        }
    }

    /// Return the item kind from the stored mediatype.
    pub fn kind(&self) -> (r: ArchiveItemKind)
        ensures
            r == item_kind(opt_view(self.mediatype)),
    {
        match &self.mediatype {
            Some(m) => {
                if str_equal(m.as_str(), "collection") {
                    ArchiveItemKind::Collection
                } else {
                    ArchiveItemKind::Item
                }
            },
            None => ArchiveItemKind::Item,
        }
    }

    /// The item's files (with the derived EPUB, MOBI, DAISY and MARC files
    /// when `on_the_fly`): all of them when no name, format or include pattern
    /// is given; otherwise, in order, those named in `files`, those whose format
    /// is in `formats`, and those that some include pattern matches and no
    /// exclude pattern does (patterns may hold several alternatives split at `|`).
    pub fn matching_files(
        &self,
        files: &[String],
        formats: &[String],
        glob_pattern: &[String],
        exclude_pattern: &[String],
        on_the_fly: bool,
    ) -> (r: Vec<ArchiveFile>)
        ensures
            r@.map_values(|f: ArchiveFile| f@) == matching_files_spec(
                self.files@.map_values(|f: ArchiveFile| f@),
                self.identifier@,
                strings_view(files@),
                strings_view(formats@),
                strings_view(glob_pattern@),
                strings_view(exclude_pattern@),
                on_the_fly,
            ),
    {
        let mut item_files: Vec<ArchiveFile> = Vec::new();
        let mut i: usize = 0;
        while i < self.files.len()
            invariant
                i <= self.files@.len(),
                item_files@.map_values(|f: ArchiveFile| f@) == self.files@.take(i as int).map_values(
                    |f: ArchiveFile| f@,
                ),
            decreases self.files@.len() - i,
        {
            let ghost prev = item_files@;
            let d = self.files[i].duplicate();
            item_files.push(d);
            assert(item_files@ == prev.push(d));
            assert(item_files@.map_values(|f: ArchiveFile| f@) =~= prev.map_values(
                |f: ArchiveFile| f@,
            ).push(d@));
            assert(self.files@.take(i + 1).map_values(|f: ArchiveFile| f@) =~= self.files@.take(
                i as int,
            ).map_values(|f: ArchiveFile| f@).push(self.files@[i as int]@));
            i = i + 1;
        }
        assert(self.files@.take(i as int) =~= self.files@);
        let id = self.identifier.as_str();
        if on_the_fly {
            let ghost before = item_files@.map_values(|f: ArchiveFile| f@);
            item_files.push(derived_file(id, ".epub"));
            item_files.push(derived_file(id, ".mobi"));
            item_files.push(derived_file(id, "_daisy.zip"));
            item_files.push(derived_file(id, "_archive_marc.xml"));
            assert(item_files@.map_values(|f: ArchiveFile| f@) =~= before + on_the_fly_files(
                id@,
            ));
        }
        let ghost all = item_files@.map_values(|f: ArchiveFile| f@);
        if files.len() == 0 && formats.len() == 0 && glob_pattern.len() == 0 {
            return item_files;
        }
        let glob_refs = str_refs(glob_pattern);
        let exclude_refs = str_refs(exclude_pattern);
        let patterns = flatten_pipe_patterns(glob_refs.as_slice());
        let exclude_patterns = flatten_pipe_patterns(exclude_refs.as_slice());
        let ghost ps = patterns@.map_values(|p: String| p@);
        let ghost es = exclude_patterns@.map_values(|p: String| p@);
        let has_patterns = patterns.len() > 0;
        let mut included: Vec<bool> = Vec::new();
        let mut excluded: Vec<bool> = Vec::new();
        let mut k: usize = 0;
        while k < item_files.len()
            invariant
                k <= item_files@.len(),
                all == item_files@.map_values(|f: ArchiveFile| f@),
                ps == patterns@.map_values(|p: String| p@),
                es == exclude_patterns@.map_values(|p: String| p@),
                has_patterns == (ps.len() > 0),
                included@.len() == k,
                excluded@.len() == k,
                forall|i: int|
                    0 <= i < k ==> #[trigger] included@[i] == (ps.len() > 0 && any_glob_match(
                        ps,
                        all[i].name,
                    )),
                forall|i: int|
                    0 <= i < k ==> #[trigger] excluded@[i] == (included@[i] && any_glob_match(
                        es,
                        all[i].name,
                    )),
            decreases item_files@.len() - k,
        {
            let name = item_files[k].name.as_str();
            assert(name@ == all[k as int].name);
            let inc = has_patterns && any_pattern_matches(&patterns, name);
            let exc = inc && any_pattern_matches(&exclude_patterns, name);
            included.push(inc);
            excluded.push(exc);
            k = k + 1;
        }
        proof {
            lemma_select_given(
                all,
                strings_view(files@),
                strings_view(formats@),
                ps,
                es,
                included@,
                excluded@,
            );
        }
        select_matched_files(
            item_files.as_slice(),
            files,
            formats,
            has_patterns,
            included.as_slice(),
            excluded.as_slice(),
        )
    }
}

} // verus!

verus! {

proof fn lemma_select_files_members(
    s: Seq<FileView>,
    files: Seq<Seq<char>>,
    formats: Seq<Seq<char>>,
    patterns: Seq<Seq<char>>,
    excludes: Seq<Seq<char>>,
)
    ensures
        forall|j: int|
            0 <= j < select_files(s, files, formats, patterns, excludes).len() ==> s.contains(
                #[trigger] select_files(s, files, formats, patterns, excludes)[j],
            ) && file_selected(select_files(s, files, formats, patterns, excludes)[j], files, formats, patterns, excludes),
        forall|i: int|
            0 <= i < s.len() && file_selected(#[trigger] s[i], files, formats, patterns, excludes)
                ==> select_files(s, files, formats, patterns, excludes).contains(s[i]),
    decreases s.len(),
{
    if s.len() > 0 {
        let init = s.drop_last();
        lemma_select_files_members(init, files, formats, patterns, excludes);
        let rest = select_files(init, files, formats, patterns, excludes);
        let r = select_files(s, files, formats, patterns, excludes);
        assert forall|j: int| 0 <= j < r.len() implies s.contains(#[trigger] r[j]) && file_selected(
            r[j],
            files,
            formats,
            patterns,
            excludes,
        ) by {
            if j < rest.len() {
                assert(r[j] == rest[j]);
                let k = choose|k: int| 0 <= k < init.len() && init[k] == rest[j];
                assert(s[k] == init[k]);
            } else {
                assert(r[j] == s[s.len() - 1]);
            }
        }
        assert forall|i: int|
            0 <= i < s.len() && file_selected(#[trigger] s[i], files, formats, patterns, excludes)
            implies r.contains(s[i]) by {
            if i < s.len() - 1 {
                assert(init[i] == s[i]);
                let k = choose|k: int| 0 <= k < rest.len() && rest[k] == s[i];
                assert(r[k] == rest[k]);
            } else {
                assert(r[r.len() - 1] == s[i]);
            }
        }
    }
}

/// The item's files followed, with `on_the_fly`, by the derived files.
pub open spec fn matching_candidates(item_files: Seq<FileView>, id: Seq<char>, on_the_fly: bool) -> Seq<
    FileView,
> {
    if on_the_fly {
        item_files + on_the_fly_files(id)
    } else {
        item_files
    }
}

/// The files `matching_files` chooses among are the item's files followed,
/// with `on_the_fly`, by the derived EPUB, MOBI, DAISY and MARC files. With no
/// name, format or include pattern it returns them all; otherwise it returns
/// only candidates, each one selected by name, format or patterns, and every
/// selected candidate, derived files included.
pub proof fn law_matching_files_candidates(
    item_files: Seq<FileView>,
    id: Seq<char>,
    files: Seq<Seq<char>>,
    formats: Seq<Seq<char>>,
    glob_pattern: Seq<Seq<char>>,
    exclude_pattern: Seq<Seq<char>>,
    on_the_fly: bool,
)
    ensures
        ({
            let cands = matching_candidates(item_files, id, on_the_fly);
            let r = matching_files_spec(
                item_files,
                id,
                files,
                formats,
                glob_pattern,
                exclude_pattern,
                on_the_fly,
            );
            let ps = flatten_pipe_spec(glob_pattern);
            let es = flatten_pipe_spec(exclude_pattern);
            &&& (files.len() == 0 && formats.len() == 0 && glob_pattern.len() == 0) ==> r == cands
            &&& !(files.len() == 0 && formats.len() == 0 && glob_pattern.len() == 0) ==> {
                &&& forall|j: int|
                    0 <= j < r.len() ==> cands.contains(#[trigger] r[j]) && file_selected(
                        r[j],
                        files,
                        formats,
                        ps,
                        es,
                    )
                &&& forall|i: int|
                    0 <= i < cands.len() && file_selected(#[trigger] cands[i], files, formats, ps, es)
                        ==> r.contains(cands[i])
            }
        }),
{
    let cands = matching_candidates(item_files, id, on_the_fly);
    lemma_select_files_members(
        cands,
        files,
        formats,
        flatten_pipe_spec(glob_pattern),
        flatten_pipe_spec(exclude_pattern),
    );
}

/// With `on_the_fly`, a derived file named in `files` is returned.
pub proof fn law_named_derived_file_returned(
    item_files: Seq<FileView>,
    id: Seq<char>,
    files: Seq<Seq<char>>,
    formats: Seq<Seq<char>>,
    glob_pattern: Seq<Seq<char>>,
    exclude_pattern: Seq<Seq<char>>,
    k: int,
)
    requires
        0 <= k < 4,
        files.contains(on_the_fly_files(id)[k].name),
    ensures
        matching_files_spec(item_files, id, files, formats, glob_pattern, exclude_pattern, true).contains(
            on_the_fly_files(id)[k],
        ),
{
    law_matching_files_candidates(item_files, id, files, formats, glob_pattern, exclude_pattern, true);
    let cands = matching_candidates(item_files, id, true);
    let i = item_files.len() + k;
    assert(cands[i] == on_the_fly_files(id)[k]);
    assert(files.len() > 0);
    assert(file_selected(
        cands[i],
        files,
        formats,
        flatten_pipe_spec(glob_pattern),
        flatten_pipe_spec(exclude_pattern),
    ));
    if files.len() == 0 && formats.len() == 0 && glob_pattern.len() == 0 {
    } else {
        assert(cands.contains(cands[i]));
    }
}

} // verus!
