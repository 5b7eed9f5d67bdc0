//! The parts of a Visual Pinball table file that this library understands.

pub mod bitstream;
pub mod gameitem;
pub mod gltf;
pub mod image;
pub mod images;
pub mod latin1;
pub mod lzw;
pub mod lzw_reader;
pub mod lzw_round_trip;
pub mod lzw_writer;
pub mod material;
pub mod mesh;
pub mod obj;
pub mod probe;
pub mod text;

pub use images::ImageToWebpConversion;

use vstd::prelude::*;

verus! {

/// What extracting the script of a table did.
#[derive(Debug, PartialEq, Eq, Clone)]
pub enum ExtractResult {
    /// The script was written to this path.
    Extracted(String),
    /// A script already existed at this path and was kept.
    Existed(String),
}

/// The outcome of checking the MAC signature of a table file.
#[derive(Debug, PartialEq, Eq, Clone)]
pub enum VerifyResult {
    /// The signature matches; the path of the file.
    Verified(String),
    /// The path and the reason.
    Failed(String, String),
}

/// An extension that holds no directory separator.
pub open spec fn is_extension(extension: Seq<char>) -> bool {
    forall|i: int| 0 <= i < extension.len() ==> #[trigger] extension[i] != '/' && extension[i] != '\\'
}

/// The index of the last dot of `name`, or -1 where it has none.
pub open spec fn last_dot(name: Seq<char>) -> int
    decreases name.len(),
{
    if name.len() == 0 {
        -1
    } else if name.last() == '.' {
        name.len() - 1
    } else {
        last_dot(name.drop_last())
    }
}

/// A file name with its extension set to `extension`: what follows the
/// last dot is replaced, unless that dot is the first character (a hidden
/// file with no extension), in which case the extension is appended.
pub open spec fn with_extension_spec(name: Seq<char>, extension: Seq<char>) -> Seq<char> {
    let i = last_dot(name);
    if i > 0 {
        name.take(i) + seq!['.'] + extension
    } else {
        name + seq!['.'] + extension
    }
}

/// The index of the last `/` of `path`, or -1 where it has none.
pub open spec fn last_slash(path: Seq<char>) -> int
    decreases path.len(),
{
    if path.len() == 0 {
        -1
    } else if path.last() == '/' {
        path.len() - 1
    } else {
        last_slash(path.drop_last())
    }
}

/// The last `/` of `path` lies in it, and one that ends in another
/// character has its last `/` before that character.
pub proof fn lemma_last_slash_bound(path: Seq<char>)
    ensures
        -1 <= last_slash(path) < path.len(),
        path.len() > 0 && path.last() != '/' ==> last_slash(path) < path.len() - 1,
    decreases path.len(),
{
    if path.len() > 0 {
        lemma_last_slash_bound(path.drop_last());
    }
}

/// Where the file name of `path`, looked for in its first `end`
/// characters, starts and ends. Components are separated by `/`; empty
/// components and `.` components are passed over, except a `.` that starts
/// the path, which stands for the current directory and has no file name.
/// A path that ends in `..`, or in the root or the current directory, has
/// no file name.
pub open spec fn file_name_span(path: Seq<char>, end: int) -> Option<(int, int)>
    decreases end,
{
    if end <= 0 || end > path.len() {
        None
    } else if path[end - 1] == '/' {
        file_name_span(path, end - 1)
    } else {
        let start = last_slash(path.take(end)) + 1;
        let component = path.subrange(start, end);
        if component == seq!['.'] {
            if start == 0 {
                None
            } else {
                proof {
                    lemma_last_slash_bound(path.take(end));
                }
                file_name_span(path, start)
            }
        } else if component == seq!['.', '.'] {
            None
        } else {
            Some((start, end))
        }
    }
}

/// A path whose components are separated by `/`, which every platform
/// takes as a separator: it holds no `\` and no drive colon, does not
/// begin with two slashes (a network share on some platforms), and has no
/// file name that begins with `..`.
pub open spec fn is_slash_path(path: Seq<char>) -> bool {
    &&& forall|i: int| 0 <= i < path.len() ==> #[trigger] path[i] != '\\' && path[i] != ':'
    &&& !(path.len() >= 2 && path[0] == '/' && path[1] == '/')
    &&& match file_name_span(path, path.len() as int) {
        Some((start, end)) => !(end - start >= 2 && path[start] == '.' && path[start + 1] == '.'),
        None => true,
    }
}

/// `path` with the extension of its file name set to `extension`: what
/// comes before the file name is kept, what follows it (slashes and `.`
/// components) is dropped. A path without a file name is kept as it is.
pub open spec fn path_with_extension(path: Seq<char>, extension: Seq<char>) -> Seq<char> {
    match file_name_span(path, path.len() as int) {
        Some((start, end)) => path.take(start) + with_extension_spec(path.subrange(start, end), extension),
        None => path,
    }
}

/// A directory separator on some platform: `/` on all of them, `\` on
/// Windows.
pub open spec fn is_separator(c: char) -> bool {
    c == '/' || c == '\\'
}

/// The index of the last separator of `path`, or -1 where it has none.
pub open spec fn last_separator(path: Seq<char>) -> int
    decreases path.len(),
{
    if path.len() == 0 {
        -1
    } else if is_separator(path.last()) {
        path.len() - 1
    } else {
        last_separator(path.drop_last())
    }
}

/// What follows the last separator of `path`.
pub open spec fn last_segment(path: Seq<char>) -> Seq<char> {
    path.skip(last_separator(path) + 1)
}

/// A path whose last segment, after its last `/` or `\`, is a file name
/// with an extension, whatever the platform: the segment holds a dot after
/// its first character, does not begin with `..` and holds no colon, and
/// the path does not begin with two separators (a network share or a
/// device path on Windows). Its file name is that segment on Windows, and
/// ends with it on other platforms, where `\` is an ordinary character;
/// either way the extension is what follows the segment's last dot.
pub open spec fn is_dotted_file_path(path: Seq<char>) -> bool {
    let name = last_segment(path);
    &&& !(path.len() >= 2 && is_separator(path[0]) && is_separator(path[1]))
    &&& forall|i: int| 0 <= i < name.len() ==> #[trigger] name[i] != ':'
    &&& last_dot(name) > 0
    &&& !(name.len() >= 2 && name[0] == '.' && name[1] == '.')
}

/// A dotted file path with the text after the last dot of its last segment
/// replaced by `extension`.
pub open spec fn dotted_path_with_extension(path: Seq<char>, extension: Seq<char>) -> Seq<char> {
    path.take(last_separator(path) + 1 + last_dot(last_segment(path))) + seq!['.'] + extension
}

/// `std::path::Path::with_extension`, as a string. Its documentation
/// (through `set_extension`, `file_name`, `extension` and `file_stem`)
/// says that the part of the file name after the last dot is replaced,
/// unless the name begins with its only dot, in which case the extension
/// is added; the file name is the last component, which is none where the
/// path ends in `..`, and `/` separates components on every platform;
/// without a file name the path is kept. The contract claims this for
/// paths written with `/` alone; paths with `\`, drive letters or network
/// shares are left unsaid, as their meaning depends on the platform. So are
/// file names that begin with `..`: for `..foo` the documentation gives
/// `..` followed by the new extension, while the standard library built
/// here returns `..`, the part before the old extension having become a
/// parent-directory component. Paths with `\` are claimed where the
/// extension after the last dot of the last segment is replaced on every
/// platform: see [`is_dotted_file_path`].
#[verifier::external_body]
fn with_extension(path: &str, extension: &str) -> (r: String)
    requires
        is_extension(extension@),
    ensures
        is_slash_path(path@) && extension@.len() > 0 ==> r@ == path_with_extension(path@, extension@),
        is_dotted_file_path(path@) && extension@.len() > 0 ==> r@ == dotted_path_with_extension(
            path@,
            extension@,
        ),
{
    std::path::Path::new(path).with_extension(extension).to_string_lossy().into_owned()
}

fn path_for(vpx_file_path: &str, extension: &str) -> (r: String)
    requires
        is_extension(extension@),
    ensures
        is_slash_path(vpx_file_path@) && extension@.len() > 0
            ==> r@ == path_with_extension(vpx_file_path@, extension@),
        is_dotted_file_path(vpx_file_path@) && extension@.len() > 0
            ==> r@ == dotted_path_with_extension(vpx_file_path@, extension@),
{
    with_extension(vpx_file_path, extension)
}

/// Returns the path to the sidecar script for a given `vpx` file: the same
/// path with the extension `vbs`.
pub fn vbs_path_for(vpx_file_path: &str) -> (r: String)
    ensures
        is_slash_path(vpx_file_path@) ==> r@ == path_with_extension(vpx_file_path@, seq!['v', 'b', 's']),
        is_dotted_file_path(vpx_file_path@) ==> r@ == dotted_path_with_extension(vpx_file_path@, seq!['v', 'b', 's']),
{
    proof {
        reveal_strlit("vbs");
    }
    path_for(vpx_file_path, "vbs")
}

/// Returns the path to the table `ini` file for a given `vpx` file: the
/// same path with the extension `ini`.
pub fn ini_path_for(vpx_file_path: &str) -> (r: String)
    ensures
        is_slash_path(vpx_file_path@) ==> r@ == path_with_extension(vpx_file_path@, seq!['i', 'n', 'i']),
        is_dotted_file_path(vpx_file_path@) ==> r@ == dotted_path_with_extension(vpx_file_path@, seq!['i', 'n', 'i']),
{
    proof {
        reveal_strlit("ini");
    }
    path_for(vpx_file_path, "ini")
}

} // verus!
