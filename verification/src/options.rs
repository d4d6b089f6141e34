//! Validation of the agent's startup options. Parsing the command line and
//! probing the filesystem stay with the caller, which hands over plain
//! values; every rule on those values is checked here.

use vstd::prelude::*;
use vstd::string::StringExecFns;
use std::io::Write;

verus! {

/// One directory argument together with the caller's probe of whether the
/// path names an existing directory.
pub struct RawDir {
    pub path: String,
    pub is_dir: bool,
}

/// Model of a directory argument.
pub ghost struct RawDirView {
    pub path: Seq<char>,
    pub is_dir: bool,
}

impl View for RawDir {
    type V = RawDirView;

    open spec fn view(&self) -> RawDirView {
        RawDirView { path: self.path@, is_dir: self.is_dir }
    }
}

impl DeepView for RawDir {
    type V = RawDirView;

    open spec fn deep_view(&self) -> RawDirView {
        self@
    }
}

/// The raw option values as the command line supplied them: `None` where a
/// flag was absent.
pub struct RawOptions {
    pub extensions: Option<Vec<String>>,
    pub types: Option<Vec<String>>,
    pub list_dirs: Option<Vec<RawDir>>,
    pub watch_dirs: Option<Vec<RawDir>>,
    pub receive_address: Option<String>,
    pub send_address: Option<String>,
}

/// The validated configuration.
pub struct Options {
    pub file_extensions_args: Option<Vec<String>>,
    pub file_types_args: Option<String>,
    pub directories_list_args: Option<Vec<String>>,
    pub directories_watch_args: Option<Vec<String>>,
    pub receive_address_arg: Option<String>,
    pub send_address_arg: Option<String>,
}

/// Why a configuration was rejected; each variant carries the diagnostic.
pub enum OptionsError {
    MissingCommand(String),
    InvalidDirectory(String),
    InvalidFileExtension(String),
    InvalidFileType(String),
}

/// The extensions the agent accepts on its allow-list.
pub open spec fn valid_extension(e: Seq<char>) -> bool {
    ||| e == "docx"@
    ||| e == "jpeg"@
    ||| e == "jpg"@
    ||| e == "mp3"@
    ||| e == "mp4"@
    ||| e == "pdf"@
    ||| e == "png"@
    ||| e == "xlsx"@
}

/// The type-filter words the agent accepts.
pub open spec fn valid_file_type(t: Seq<char>) -> bool {
    ||| t == "*"@
    ||| t == "all"@
    ||| t == "directory"@
    ||| t == "regular"@
}

/// Every listed directory exists.
pub open spec fn all_exist(ds: Seq<RawDirView>) -> bool {
    forall|i: int| 0 <= i < ds.len() ==> (#[trigger] ds[i]).is_dir
}

/// Index `i` names the first directory argument that does not exist.
pub open spec fn missing_at(ds: Seq<RawDirView>, i: int) -> bool {
    &&& 0 <= i < ds.len()
    &&& !ds[i].is_dir
    &&& forall|j: int| 0 <= j < i ==> (#[trigger] ds[j]).is_dir
}

pub open spec fn all_extensions_valid(es: Seq<Seq<char>>) -> bool {
    forall|i: int| 0 <= i < es.len() ==> valid_extension(#[trigger] es[i])
}

/// Index `i` names the first extension outside the allow-list.
pub open spec fn invalid_ext_at(es: Seq<Seq<char>>, i: int) -> bool {
    &&& 0 <= i < es.len()
    &&& !valid_extension(es[i])
    &&& forall|j: int| 0 <= j < i ==> valid_extension(#[trigger] es[j])
}

pub open spec fn all_types_valid(ts: Seq<Seq<char>>) -> bool {
    forall|i: int| 0 <= i < ts.len() ==> valid_file_type(#[trigger] ts[i])
}

/// Index `i` names the first type word outside the accepted set.
pub open spec fn invalid_type_at(ts: Seq<Seq<char>>, i: int) -> bool {
    &&& 0 <= i < ts.len()
    &&& !valid_file_type(ts[i])
    &&& forall|j: int| 0 <= j < i ==> valid_file_type(#[trigger] ts[j])
}

/// The single type word distilled from the given ones, strongest last:
/// `regular` wins over `all` (or `*`), which wins over `directory`.
pub open spec fn computed_type(ts: Seq<Seq<char>>) -> Option<Seq<char>> {
    if ts.contains("regular"@) {
        Some("regular"@)
    } else if ts.contains("*"@) || ts.contains("all"@) {
        Some("all"@)
    } else if ts.contains("directory"@) {
        Some("directory"@)
    } else {
        None
    }
}

pub open spec fn paths_of(ds: Seq<RawDirView>) -> Seq<Seq<char>> {
    Seq::new(ds.len(), |i: int| ds[i].path)
}

pub open spec fn opt_str_view(o: Option<String>) -> Option<Seq<char>> {
    match o {
        Some(s) => Some(s@),
        None => None,
    }
}

/// What validation returns, for every raw input: the first broken rule
/// decides the error, and on success every field of the configuration is
/// pinned to the input.
pub open spec fn options_outcome(raw: RawOptions, r: Result<Options, OptionsError>) -> bool {
    let lds = raw.list_dirs->Some_0.deep_view();
    let wds = raw.watch_dirs->Some_0.deep_view();
    let es = raw.extensions->Some_0.deep_view();
    let ts = raw.types->Some_0.deep_view();
    if raw.list_dirs is None || raw.watch_dirs is None {
        r matches Err(OptionsError::MissingCommand(m)) && m@ == Seq::<char>::empty()
    } else if !all_exist(lds) {
        r matches Err(OptionsError::InvalidDirectory(m)) && exists|i: int|
            #[trigger] missing_at(lds, i) && m@ == "Specified directory does not exists: "@
            + lds[i].path
    } else if !all_exist(wds) {
        r matches Err(OptionsError::InvalidDirectory(m)) && exists|i: int|
            #[trigger] missing_at(wds, i) && m@ == "Specified directory does not exists: "@
            + wds[i].path
    } else if raw.extensions is Some && !all_extensions_valid(es) {
        r matches Err(OptionsError::InvalidFileExtension(m)) && exists|i: int|
            #[trigger] invalid_ext_at(es, i) && m@ == "Invalid file extension: "@ + es[i]
    } else if raw.types is Some && !all_types_valid(ts) {
        r matches Err(OptionsError::InvalidFileType(m)) && exists|i: int|
            #[trigger] invalid_type_at(ts, i) && m@ == "Invalid file type: "@ + ts[i]
    } else if raw.extensions is Some && raw.types is Some && computed_type(ts) == Some("directory"@)
        && es.len() > 0 {
        r matches Err(OptionsError::InvalidFileType(m)) && m@
            == "Can't specify both file extensions and file type directory simultaneously"@
    } else {
        r matches Ok(o)
            && (o.directories_list_args matches Some(l) && l.deep_view() == paths_of(lds))
            && (o.directories_watch_args matches Some(w) && w.deep_view() == paths_of(wds))
            && o.file_extensions_args == raw.extensions
            && (match raw.types {
                Some(_) => opt_str_view(o.file_types_args) == computed_type(ts),
                None => o.file_types_args is None,
            })
            && o.receive_address_arg == raw.receive_address
            && o.send_address_arg == raw.send_address
    }
}

/// Decides membership of the extension allow-list.
pub fn is_valid_extension(e: &String) -> (r: bool)
    ensures
        r == valid_extension(e@),
{
    e.eq(&"docx".to_owned()) || e.eq(&"jpeg".to_owned()) || e.eq(&"jpg".to_owned()) || e.eq(
        &"mp3".to_owned(),
    ) || e.eq(&"mp4".to_owned()) || e.eq(&"pdf".to_owned()) || e.eq(&"png".to_owned()) || e.eq(
        &"xlsx".to_owned(),
    )
}

/// Decides membership of the accepted type-word set.
pub fn is_valid_file_type(t: &String) -> (r: bool)
    ensures
        r == valid_file_type(t@),
{
    t.eq(&"*".to_owned()) || t.eq(&"all".to_owned()) || t.eq(&"directory".to_owned()) || t.eq(
        &"regular".to_owned(),
    )
}

fn find_missing_dir(ds: &Vec<RawDir>) -> (r: Option<usize>)
    ensures
        match r {
            Some(i) => missing_at(ds.deep_view(), i as int),
            None => all_exist(ds.deep_view()),
        },
{
    let n = ds.len();
    for i in 0..n
        invariant
            n == ds.len(),
            forall|j: int| 0 <= j < i ==> (#[trigger] ds.deep_view()[j]).is_dir,
    {
        assert(ds.deep_view()[i as int] == ds@[i as int]@);
        if !ds[i].is_dir {
            return Some(i);
        }
    }
    None
}

fn find_invalid_extension(es: &Vec<String>) -> (r: Option<usize>)
    ensures
        match r {
            Some(i) => invalid_ext_at(es.deep_view(), i as int),
            None => all_extensions_valid(es.deep_view()),
        },
{
    let n = es.len();
    for i in 0..n
        invariant
            n == es.len(),
            forall|j: int| 0 <= j < i ==> valid_extension(#[trigger] es.deep_view()[j]),
    {
        assert(es.deep_view()[i as int] == es@[i as int]@);
        if !is_valid_extension(&es[i]) {
            return Some(i);
        }
    }
    None
}

fn find_invalid_type(ts: &Vec<String>) -> (r: Option<usize>)
    ensures
        match r {
            Some(i) => invalid_type_at(ts.deep_view(), i as int),
            None => all_types_valid(ts.deep_view()),
        },
{
    let n = ts.len();
    for i in 0..n
        invariant
            n == ts.len(),
            forall|j: int| 0 <= j < i ==> valid_file_type(#[trigger] ts.deep_view()[j]),
    {
        assert(ts.deep_view()[i as int] == ts@[i as int]@);
        if !is_valid_file_type(&ts[i]) {
            return Some(i);
        }
    }
    None
}

fn compute_type(ts: &Vec<String>) -> (r: Option<String>)
    ensures
        opt_str_view(r) == computed_type(ts.deep_view()),
{
    if crate::descriptor::contains_string(ts, &"regular".to_owned()) {
        Some("regular".to_owned())
    } else if crate::descriptor::contains_string(ts, &"*".to_owned()) || crate::descriptor::contains_string(
        ts,
        &"all".to_owned(),
    ) {
        Some("all".to_owned())
    } else if crate::descriptor::contains_string(ts, &"directory".to_owned()) {
        Some("directory".to_owned())
    } else {
        None
    }
}

fn dir_paths(ds: &Vec<RawDir>) -> (r: Vec<String>)
    ensures
        r.deep_view() == paths_of(ds.deep_view()),
{
    let n = ds.len();
    let mut r: Vec<String> = Vec::new();
    for i in 0..n
        invariant
            n == ds.len(),
            r.deep_view() =~= paths_of(ds.deep_view()).take(i as int),
    {
        assert(ds.deep_view()[i as int] == ds@[i as int]@);
        let ghost rs0 = r@;
        let ghost rv0 = r.deep_view();
        r.push(ds[i].path.clone());
        proof {
            assert(rv0 == Seq::new(rs0.len(), |q: int| rs0[q].deep_view()));
            assert(rv0.len() == rs0.len());
            assert forall|k: int| 0 <= k < i as int + 1 implies r.deep_view()[k] == paths_of(
                ds.deep_view(),
            ).take(i as int + 1)[k] by {
                assert(r.deep_view()[k] == r@[k].deep_view());
                if k < i as int {
                    assert(r@[k] == rs0[k]);
                    assert(rv0[k] == rs0[k].deep_view());
                }
            }
            assert(r.deep_view() =~= paths_of(ds.deep_view()).take(i as int + 1));
        }
    }
    proof {
        assert(paths_of(ds.deep_view()).take(n as int) =~= paths_of(ds.deep_view()));
    }
    r
}

/// Checks every rule on the raw option values: both a list set and a watch
/// set must be given; every named directory must exist; extensions must be
/// on the allow-list; type words must be accepted; and an extension filter
/// cannot be combined with the `directory` type filter.
pub fn check_options(raw: RawOptions) -> (r: Result<Options, OptionsError>)
    ensures
        options_outcome(raw, r),
{
    if raw.list_dirs.is_none() || raw.watch_dirs.is_none() {
        return Err(OptionsError::MissingCommand(String::new()));
    }
    let list_dirs = match raw.list_dirs {
        Some(ref v) => v,
        None => {
            return Err(OptionsError::MissingCommand(String::new()));
        },
    };
    let watch_dirs = match raw.watch_dirs {
        Some(ref v) => v,
        None => {
            return Err(OptionsError::MissingCommand(String::new()));
        },
    };
    if let Some(i) = find_missing_dir(list_dirs) {
        let m = "Specified directory does not exists: ".to_owned().concat(
            list_dirs[i].path.as_str(),
        );
        proof {
            assert(list_dirs.deep_view()[i as int] == list_dirs@[i as int]@);
        }
        return Err(OptionsError::InvalidDirectory(m));
    }
    if let Some(i) = find_missing_dir(watch_dirs) {
        let m = "Specified directory does not exists: ".to_owned().concat(
            watch_dirs[i].path.as_str(),
        );
        proof {
            assert(watch_dirs.deep_view()[i as int] == watch_dirs@[i as int]@);
        }
        return Err(OptionsError::InvalidDirectory(m));
    }
    if let Some(ref es) = raw.extensions {
        if let Some(i) = find_invalid_extension(es) {
            let m = "Invalid file extension: ".to_owned().concat(es[i].as_str());
            proof {
                assert(es.deep_view()[i as int] == es@[i as int]@);
            }
            return Err(OptionsError::InvalidFileExtension(m));
        }
    }
    if let Some(ref ts) = raw.types {
        if let Some(i) = find_invalid_type(ts) {
            let m = "Invalid file type: ".to_owned().concat(ts[i].as_str());
            proof {
                assert(ts.deep_view()[i as int] == ts@[i as int]@);
            }
            return Err(OptionsError::InvalidFileType(m));
        }
    }
    let file_types_args = match raw.types {
        Some(ref ts) => compute_type(ts),
        None => None,
    };
    if let Some(ref es) = raw.extensions {
        if let Some(ref t) = file_types_args {
            if t.eq(&"directory".to_owned()) && es.len() > 0 {
                let m =
                    "Can't specify both file extensions and file type directory simultaneously".to_owned();
                return Err(OptionsError::InvalidFileType(m));
            }
        }
    }
    let directories_list_args = Some(dir_paths(list_dirs));
    let directories_watch_args = Some(dir_paths(watch_dirs));
    Ok(
        Options {
            file_extensions_args: raw.extensions,
            file_types_args,
            directories_list_args,
            directories_watch_args,
            receive_address_arg: raw.receive_address,
            send_address_arg: raw.send_address,
        },
    )
}

/// Validates raw option values; same outcome as `check_options`.
pub fn get_options(raw: RawOptions) -> (r: Result<Options, OptionsError>)
    ensures
        options_outcome(raw, r),
{
    check_options(raw)
}

/// Relies on `std::io::Write::write_fmt` (through `writeln`): writes the
/// message and a newline to the standard error stream.
#[verifier::external_body]
fn write_error_line(msg: &str) {
    let mut err = std::io::stderr();
    let _ = writeln!(err, "{}", msg);
}

/// Reports a rejected configuration on the standard error stream: the
/// diagnostic carried by the error, as one line.
pub fn print_option_error(error: OptionsError) {
    match error {
        OptionsError::MissingCommand(e) => write_error_line(e.as_str()),
        OptionsError::InvalidDirectory(e) => write_error_line(e.as_str()),
        OptionsError::InvalidFileExtension(e) => write_error_line(e.as_str()),
        OptionsError::InvalidFileType(e) => write_error_line(e.as_str()),
    }
}

} // verus!
