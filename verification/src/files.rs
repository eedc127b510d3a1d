//! What files are, as far as their names tell.
use vstd::prelude::*;
use vstd::string::*;

use crate::path_laws;
use crate::paths;
use crate::paths::extension_of;
use crate::paths::file_name_of;
use crate::search_laws;
use crate::style::Color;
use crate::text;
use crate::text::begins_with;
use crate::text::chars_of;
use crate::text::ends_in;
use crate::text::lowercase_of;
use crate::text::same_text;
use crate::text::sub_chars;

verus! {

/// The extension of the file that a path leads to, in lowercase, or nothing.
pub open spec fn lower_extension(path: Seq<char>) -> Seq<char> {
    match paths::extension(path) {
        Some(ext) => text::lowercase(ext),
        None => text::lowercase(Seq::empty()),
    }
}

fn lower_extension_of(path: &str) -> (r: String)
    ensures
        r@ == lower_extension(path@),
{
    match extension_of(path) {
        Some(ext) => lowercase_of(ext.as_str()),
        None => {
            let none = String::new();
            proof {
                assert(none@ =~= Seq::<char>::empty());
            }
            lowercase_of(none.as_str())
        },
    }
}

/// The extensions of images.
pub open spec fn image_ext(ext: Seq<char>) -> bool {
    ||| ext == "png"@
    ||| ext == "jpg"@
    ||| ext == "jpeg"@
    ||| ext == "gif"@
    ||| ext == "webp"@
    ||| ext == "bmp"@
    ||| ext == "ico"@
}

/// The extensions of videos.
pub open spec fn video_ext(ext: Seq<char>) -> bool {
    ||| ext == "mp4"@
    ||| ext == "mkv"@
    ||| ext == "avi"@
    ||| ext == "mov"@
    ||| ext == "webm"@
    ||| ext == "flv"@
    ||| ext == "wmv"@
    ||| ext == "m4v"@
}

/// The extensions of text.
pub open spec fn text_ext(ext: Seq<char>) -> bool {
    ||| ext == "txt"@
    ||| ext == "md"@
    ||| ext == "rs"@
    ||| ext == "c"@
    ||| ext == "h"@
    ||| ext == "cpp"@
    ||| ext == "cc"@
    ||| ext == "cxx"@
    ||| ext == "py"@
    ||| ext == "js"@
    ||| ext == "ts"@
    ||| ext == "json"@
    ||| ext == "yaml"@
    ||| ext == "yml"@
    ||| ext == "toml"@
    ||| ext == "go"@
    ||| ext == "java"@
    ||| ext == "sh"@
    ||| ext == "bash"@
    ||| ext == "zsh"@
    ||| ext == "css"@
    ||| ext == "xml"@
    ||| ext == "csv"@
}

/// Whether a path leads to an image.
pub fn is_image_file(path: &str) -> (r: bool)
    ensures
        r == image_ext(lower_extension(path@)),
{
    let lower = lower_extension_of(path);
    let ext = lower.as_str();
    same_text(ext, "png") || same_text(ext, "jpg") || same_text(ext, "jpeg")
        || same_text(ext, "gif") || same_text(ext, "webp") || same_text(ext, "bmp")
        || same_text(ext, "ico")
}

/// Whether a path leads to a video.
pub fn is_video_file(path: &str) -> (r: bool)
    ensures
        r == video_ext(lower_extension(path@)),
{
    let lower = lower_extension_of(path);
    let ext = lower.as_str();
    same_text(ext, "mp4") || same_text(ext, "mkv") || same_text(ext, "avi")
        || same_text(ext, "mov") || same_text(ext, "webm") || same_text(ext, "flv")
        || same_text(ext, "wmv") || same_text(ext, "m4v")
}

/// Whether a path leads to a text file, as far as the name tells: one with an
/// extension of text, or a hidden one without an extension.
pub open spec fn named_as_text(path: Seq<char>) -> bool {
    let ext = lower_extension(path);
    text_ext(ext) || (ext.len() == 0 && paths::file_name(path) is Some && paths::file_name(
        path,
    )->0.len() > 0 && paths::file_name(path)->0[0] == '.')
}

/// Whether a path leads to a text file, as far as the name tells.
pub fn is_text_extension(path: &str) -> (r: bool)
    ensures
        r == named_as_text(path@),
{
    let lower = lower_extension_of(path);
    let ext = lower.as_str();
    let chars = chars_of(path);
    let hidden = match file_name_of(chars.as_slice()) {
        Some(name) => name.len() > 0 && name[0] == '.',
        None => false,
    };
    if hidden && chars_of(ext).len() == 0 {
        return true;
    }
    same_text(ext, "txt") || same_text(ext, "md") || same_text(ext, "rs") || same_text(ext, "c")
        || same_text(ext, "h") || same_text(ext, "cpp") || same_text(ext, "cc")
        || same_text(ext, "cxx") || same_text(ext, "py") || same_text(ext, "js")
        || same_text(ext, "ts") || same_text(ext, "json") || same_text(ext, "yaml")
        || same_text(ext, "yml") || same_text(ext, "toml") || same_text(ext, "go")
        || same_text(ext, "java") || same_text(ext, "sh") || same_text(ext, "bash")
        || same_text(ext, "zsh") || same_text(ext, "css") || same_text(ext, "xml")
        || same_text(ext, "csv")
}

/// The types of text that are named in full.
pub open spec fn is_named_text_mime(mime: Seq<char>) -> bool {
    ||| mime == "application/json"@
    ||| mime == "application/xml"@
    ||| mime == "application/x-yaml"@
    ||| mime == "application/yaml"@
    ||| mime == "application/toml"@
    ||| mime == "application/x-toml"@
    ||| mime == "application/javascript"@
    ||| mime == "application/x-shellscript"@
    ||| mime == "application/x-sh"@
}

/// Whether a MIME type is one of text: of the group of text but for HTML, of the
/// group of applications with a suffix of a text format, or one that is named.
pub open spec fn is_text_type(mime: Seq<char>) -> bool {
    ||| "text/"@.is_prefix_of(mime) && mime != "text/html"@
    ||| "application/"@.is_prefix_of(mime) && {
        let subtype = mime.skip("application/"@.len() as int);
        ||| "+json"@.is_suffix_of(subtype)
        ||| "+xml"@.is_suffix_of(subtype)
        ||| "+yaml"@.is_suffix_of(subtype)
        ||| "+toml"@.is_suffix_of(subtype)
    }
    ||| is_named_text_mime(mime)
}

fn has_suffix(s: &[char], suffix: &str) -> (r: bool)
    ensures
        r == suffix@.is_suffix_of(s@),
{
    let tail = chars_of(suffix);
    ends_in(s, tail.as_slice())
}

/// Whether a MIME type is one of text.
pub fn is_text_mime(mime_type: &str) -> (r: bool)
    ensures
        r == is_text_type(mime_type@),
{
    let mime = chars_of(mime_type);
    let group = chars_of("text/");
    if begins_with(mime.as_slice(), group.as_slice()) && !same_text(mime_type, "text/html") {
        return true;
    }
    let applications = chars_of("application/");
    if begins_with(mime.as_slice(), applications.as_slice()) {
        let subtype = sub_chars(mime.as_slice(), applications.len(), mime.len());
        proof {
            assert(subtype@ =~= mime_type@.skip("application/"@.len() as int));
        }
        let s = subtype.as_slice();
        if has_suffix(s, "+json") || has_suffix(s, "+xml") || has_suffix(s, "+yaml") || has_suffix(
            s,
            "+toml",
        ) {
            return true;
        }
    }
    same_text(mime_type, "application/json") || same_text(mime_type, "application/xml")
        || same_text(mime_type, "application/x-yaml") || same_text(mime_type, "application/yaml")
        || same_text(mime_type, "application/toml") || same_text(mime_type, "application/x-toml")
        || same_text(mime_type, "application/javascript")
        || same_text(mime_type, "application/x-shellscript")
        || same_text(mime_type, "application/x-sh")
}

/// The icon and colour for an extension, if it is a known one.
pub open spec fn icon_for(ext: Seq<char>) -> Option<(Seq<char>, Color)> {
    if ext == "pdf"@ {
        Some(("\u{f1c1}"@, Color::Red))
    } else if ext == "doc"@ || ext == "docx"@ {
        Some(("\u{f1c2}"@, Color::Blue))
    } else if ext == "xls"@ || ext == "xlsx"@ {
        Some(("\u{f1c3}"@, Color::Green))
    } else if ext == "ppt"@ || ext == "pptx"@ {
        Some(("\u{f1c4}"@, Color::Rgb(255, 120, 0)))
    } else if ext == "md"@ {
        Some(("\u{e73e}"@, Color::White))
    } else if ext == "txt"@ || ext == "log"@ {
        Some(("\u{f15c}"@, Color::White))
    } else if ext == "tex"@ || ext == "latex"@ {
        Some(("\u{f15c}"@, Color::Green))
    } else if ext == "rs"@ {
        Some(("\u{e7a8}"@, Color::Rgb(222, 165, 132)))
    } else if ext == "py"@ {
        Some(("\u{e73c}"@, Color::Rgb(55, 118, 171)))
    } else if ext == "js"@ || ext == "mjs"@ || ext == "cjs"@ {
        Some(("\u{e74e}"@, Color::Yellow))
    } else if ext == "ts"@ || ext == "mts"@ {
        Some(("\u{e628}"@, Color::Rgb(49, 120, 198)))
    } else if ext == "tsx"@ || ext == "jsx"@ {
        Some(("\u{e7ba}"@, Color::Cyan))
    } else if ext == "cpp"@ || ext == "cc"@ || ext == "cxx"@ || ext == "hpp"@ {
        Some(("\u{e61d}"@, Color::Rgb(0, 89, 156)))
    } else if ext == "c"@ || ext == "h"@ {
        Some(("\u{e61e}"@, Color::Rgb(85, 85, 205)))
    } else if ext == "go"@ {
        Some(("\u{e626}"@, Color::Cyan))
    } else if ext == "java"@ {
        Some(("\u{e738}"@, Color::Rgb(176, 114, 25)))
    } else if ext == "kt"@ || ext == "kts"@ {
        Some(("\u{e634}"@, Color::Rgb(150, 75, 210)))
    } else if ext == "swift"@ {
        Some(("\u{e755}"@, Color::Rgb(255, 106, 51)))
    } else if ext == "rb"@ {
        Some(("\u{e739}"@, Color::Red))
    } else if ext == "php"@ {
        Some(("\u{e73d}"@, Color::Rgb(119, 123, 180)))
    } else if ext == "lua"@ {
        Some(("\u{e620}"@, Color::Blue))
    } else if ext == "zig"@ {
        Some(("\u{f0e7}"@, Color::Rgb(247, 164, 29)))
    } else if ext == "nim"@ {
        Some(("\u{f005}"@, Color::Yellow))
    } else if ext == "hs"@ || ext == "lhs"@ {
        Some(("\u{e777}"@, Color::Rgb(94, 80, 134)))
    } else if ext == "ml"@ || ext == "mli"@ || ext == "ocaml"@ {
        Some(("\u{e63a}"@, Color::Rgb(238, 122, 0)))
    } else if ext == "ex"@ || ext == "exs"@ {
        Some(("\u{e62d}"@, Color::Rgb(110, 74, 128)))
    } else if ext == "erl"@ {
        Some(("\u{e7b1}"@, Color::Red))
    } else if ext == "r"@ || ext == "R"@ {
        Some(("\u{f25d}"@, Color::Rgb(39, 108, 194)))
    } else if ext == "scala"@ {
        Some(("\u{e737}"@, Color::Red))
    } else if ext == "dart"@ {
        Some(("\u{e798}"@, Color::Cyan))
    } else if ext == "v"@ || ext == "sv"@ || ext == "svh"@ {
        Some(("\u{f085}"@, Color::Rgb(0, 140, 140)))
    } else if ext == "sh"@ || ext == "bash"@ || ext == "zsh"@ || ext == "fish"@ {
        Some(("\u{e795}"@, Color::Green))
    } else if ext == "nix"@ {
        Some(("\u{f313}"@, Color::Rgb(126, 186, 228)))
    } else if ext == "html"@ || ext == "htm"@ {
        Some(("\u{e736}"@, Color::Rgb(228, 77, 38)))
    } else if ext == "css"@ || ext == "scss"@ || ext == "sass"@ || ext == "less"@ {
        Some(("\u{e749}"@, Color::Rgb(86, 61, 124)))
    } else if ext == "vue"@ {
        Some(("\u{e6a0}"@, Color::Green))
    } else if ext == "svelte"@ {
        Some(("\u{e697}"@, Color::Rgb(255, 62, 0)))
    } else if ext == "json"@ || ext == "jsonc"@ {
        Some(("\u{e60b}"@, Color::Yellow))
    } else if ext == "yaml"@ || ext == "yml"@ {
        Some(("\u{f481}"@, Color::Rgb(203, 56, 55)))
    } else if ext == "toml"@ {
        Some(("\u{e6b2}"@, Color::Rgb(156, 66, 33)))
    } else if ext == "xml"@ || ext == "xsl"@ {
        Some(("\u{e796}"@, Color::Rgb(228, 77, 38)))
    } else if ext == "csv"@ {
        Some(("\u{f1c3}"@, Color::Green))
    } else if ext == "sql"@ {
        Some(("\u{f1c0}"@, Color::Rgb(0, 116, 143)))
    } else if ext == "graphql"@ || ext == "gql"@ {
        Some(("\u{e662}"@, Color::Rgb(229, 53, 171)))
    } else if ext == "proto"@ {
        Some(("\u{f481}"@, Color::Cyan))
    } else if ext == "dockerfile"@ {
        Some(("\u{e7b0}"@, Color::Rgb(56, 134, 200)))
    } else if ext == "lock"@ {
        Some(("\u{f023}"@, Color::DarkGray))
    } else if ext == "png"@ || ext == "jpg"@ || ext == "jpeg"@ || ext == "gif"@ || ext == "svg"@
        || ext == "webp"@ || ext == "bmp"@ || ext == "ico"@ || ext == "tiff"@ {
        Some(("\u{f1c5}"@, Color::Rgb(160, 100, 210)))
    } else if ext == "mp3"@ || ext == "wav"@ || ext == "flac"@ || ext == "ogg"@ || ext == "aac"@
        || ext == "m4a"@ || ext == "wma"@ {
        Some(("\u{f1c7}"@, Color::Rgb(255, 87, 51)))
    } else if ext == "mp4"@ || ext == "mkv"@ || ext == "avi"@ || ext == "mov"@ || ext == "webm"@
        || ext == "flv"@ || ext == "wmv"@ || ext == "m4v"@ {
        Some(("\u{f1c8}"@, Color::Rgb(253, 216, 53)))
    } else if ext == "zip"@ || ext == "tar"@ || ext == "gz"@ || ext == "xz"@ || ext == "bz2"@
        || ext == "7z"@ || ext == "rar"@ || ext == "zst"@ || ext == "deb"@ || ext == "rpm"@ {
        Some(("\u{f1c6}"@, Color::Rgb(175, 135, 0)))
    } else if ext == "ttf"@ || ext == "otf"@ || ext == "woff"@ || ext == "woff2"@ {
        Some(("\u{f031}"@, Color::White))
    } else if ext == "bin"@ || ext == "exe"@ || ext == "so"@ || ext == "dylib"@ || ext == "dll"@ {
        Some(("\u{f013}"@, Color::Green))
    } else {
        None
    }
}

fn find_icon(ext: &str) -> (r: Option<(&'static str, Color)>)
    ensures
        match r {
            Some(icon) => icon_for(ext@) == Some((icon.0@, icon.1)),
            None => icon_for(ext@) is None,
        },
{
    if same_text(ext, "pdf") {
        Some(("\u{f1c1}", Color::Red))
    } else if same_text(ext, "doc") || same_text(ext, "docx") {
        Some(("\u{f1c2}", Color::Blue))
    } else if same_text(ext, "xls") || same_text(ext, "xlsx") {
        Some(("\u{f1c3}", Color::Green))
    } else if same_text(ext, "ppt") || same_text(ext, "pptx") {
        Some(("\u{f1c4}", Color::Rgb(255, 120, 0)))
    } else if same_text(ext, "md") {
        Some(("\u{e73e}", Color::White))
    } else if same_text(ext, "txt") || same_text(ext, "log") {
        Some(("\u{f15c}", Color::White))
    } else if same_text(ext, "tex") || same_text(ext, "latex") {
        Some(("\u{f15c}", Color::Green))
    } else if same_text(ext, "rs") {
        Some(("\u{e7a8}", Color::Rgb(222, 165, 132)))
    } else if same_text(ext, "py") {
        Some(("\u{e73c}", Color::Rgb(55, 118, 171)))
    } else if same_text(ext, "js") || same_text(ext, "mjs") || same_text(ext, "cjs") {
        Some(("\u{e74e}", Color::Yellow))
    } else if same_text(ext, "ts") || same_text(ext, "mts") {
        Some(("\u{e628}", Color::Rgb(49, 120, 198)))
    } else if same_text(ext, "tsx") || same_text(ext, "jsx") {
        Some(("\u{e7ba}", Color::Cyan))
    } else if same_text(ext, "cpp") || same_text(ext, "cc") || same_text(ext, "cxx")
        || same_text(ext, "hpp") {
        Some(("\u{e61d}", Color::Rgb(0, 89, 156)))
    } else if same_text(ext, "c") || same_text(ext, "h") {
        Some(("\u{e61e}", Color::Rgb(85, 85, 205)))
    } else if same_text(ext, "go") {
        Some(("\u{e626}", Color::Cyan))
    } else if same_text(ext, "java") {
        Some(("\u{e738}", Color::Rgb(176, 114, 25)))
    } else if same_text(ext, "kt") || same_text(ext, "kts") {
        Some(("\u{e634}", Color::Rgb(150, 75, 210)))
    } else if same_text(ext, "swift") {
        Some(("\u{e755}", Color::Rgb(255, 106, 51)))
    } else if same_text(ext, "rb") {
        Some(("\u{e739}", Color::Red))
    } else if same_text(ext, "php") {
        Some(("\u{e73d}", Color::Rgb(119, 123, 180)))
    } else if same_text(ext, "lua") {
        Some(("\u{e620}", Color::Blue))
    } else if same_text(ext, "zig") {
        Some(("\u{f0e7}", Color::Rgb(247, 164, 29)))
    } else if same_text(ext, "nim") {
        Some(("\u{f005}", Color::Yellow))
    } else if same_text(ext, "hs") || same_text(ext, "lhs") {
        Some(("\u{e777}", Color::Rgb(94, 80, 134)))
    } else if same_text(ext, "ml") || same_text(ext, "mli") || same_text(ext, "ocaml") {
        Some(("\u{e63a}", Color::Rgb(238, 122, 0)))
    } else if same_text(ext, "ex") || same_text(ext, "exs") {
        Some(("\u{e62d}", Color::Rgb(110, 74, 128)))
    } else if same_text(ext, "erl") {
        Some(("\u{e7b1}", Color::Red))
    } else if same_text(ext, "r") || same_text(ext, "R") {
        Some(("\u{f25d}", Color::Rgb(39, 108, 194)))
    } else if same_text(ext, "scala") {
        Some(("\u{e737}", Color::Red))
    } else if same_text(ext, "dart") {
        Some(("\u{e798}", Color::Cyan))
    } else if same_text(ext, "v") || same_text(ext, "sv") || same_text(ext, "svh") {
        Some(("\u{f085}", Color::Rgb(0, 140, 140)))
    } else if same_text(ext, "sh") || same_text(ext, "bash") || same_text(ext, "zsh")
        || same_text(ext, "fish") {
        Some(("\u{e795}", Color::Green))
    } else if same_text(ext, "nix") {
        Some(("\u{f313}", Color::Rgb(126, 186, 228)))
    } else if same_text(ext, "html") || same_text(ext, "htm") {
        Some(("\u{e736}", Color::Rgb(228, 77, 38)))
    } else if same_text(ext, "css") || same_text(ext, "scss") || same_text(ext, "sass")
        || same_text(ext, "less") {
        Some(("\u{e749}", Color::Rgb(86, 61, 124)))
    } else if same_text(ext, "vue") {
        Some(("\u{e6a0}", Color::Green))
    } else if same_text(ext, "svelte") {
        Some(("\u{e697}", Color::Rgb(255, 62, 0)))
    } else if same_text(ext, "json") || same_text(ext, "jsonc") {
        Some(("\u{e60b}", Color::Yellow))
    } else if same_text(ext, "yaml") || same_text(ext, "yml") {
        Some(("\u{f481}", Color::Rgb(203, 56, 55)))
    } else if same_text(ext, "toml") {
        Some(("\u{e6b2}", Color::Rgb(156, 66, 33)))
    } else if same_text(ext, "xml") || same_text(ext, "xsl") {
        Some(("\u{e796}", Color::Rgb(228, 77, 38)))
    } else if same_text(ext, "csv") {
        Some(("\u{f1c3}", Color::Green))
    } else if same_text(ext, "sql") {
        Some(("\u{f1c0}", Color::Rgb(0, 116, 143)))
    } else if same_text(ext, "graphql") || same_text(ext, "gql") {
        Some(("\u{e662}", Color::Rgb(229, 53, 171)))
    } else if same_text(ext, "proto") {
        Some(("\u{f481}", Color::Cyan))
    } else if same_text(ext, "dockerfile") {
        Some(("\u{e7b0}", Color::Rgb(56, 134, 200)))
    } else if same_text(ext, "lock") {
        Some(("\u{f023}", Color::DarkGray))
    } else if same_text(ext, "png") || same_text(ext, "jpg") || same_text(ext, "jpeg")
        || same_text(ext, "gif") || same_text(ext, "svg") || same_text(ext, "webp")
        || same_text(ext, "bmp") || same_text(ext, "ico") || same_text(ext, "tiff") {
        Some(("\u{f1c5}", Color::Rgb(160, 100, 210)))
    } else if same_text(ext, "mp3") || same_text(ext, "wav") || same_text(ext, "flac")
        || same_text(ext, "ogg") || same_text(ext, "aac") || same_text(ext, "m4a")
        || same_text(ext, "wma") {
        Some(("\u{f1c7}", Color::Rgb(255, 87, 51)))
    } else if same_text(ext, "mp4") || same_text(ext, "mkv") || same_text(ext, "avi")
        || same_text(ext, "mov") || same_text(ext, "webm") || same_text(ext, "flv")
        || same_text(ext, "wmv") || same_text(ext, "m4v") {
        Some(("\u{f1c8}", Color::Rgb(253, 216, 53)))
    } else if same_text(ext, "zip") || same_text(ext, "tar") || same_text(ext, "gz")
        || same_text(ext, "xz") || same_text(ext, "bz2") || same_text(ext, "7z")
        || same_text(ext, "rar") || same_text(ext, "zst") || same_text(ext, "deb")
        || same_text(ext, "rpm") {
        Some(("\u{f1c6}", Color::Rgb(175, 135, 0)))
    } else if same_text(ext, "ttf") || same_text(ext, "otf") || same_text(ext, "woff")
        || same_text(ext, "woff2") {
        Some(("\u{f031}", Color::White))
    } else if same_text(ext, "bin") || same_text(ext, "exe") || same_text(ext, "so")
        || same_text(ext, "dylib") || same_text(ext, "dll") {
        Some(("\u{f013}", Color::Green))
    } else {
        None
    }
}

/// The icon and colour for a file name: by its extension, or as that of a hidden
/// file, or of any.
pub open spec fn icon_of(filename: Seq<char>) -> (Seq<char>, Color) {
    match icon_for(lower_extension(filename)) {
        Some(icon) => icon,
        None => if filename.len() > 0 && filename[0] == '.' {
            ("\u{f013}"@, Color::DarkGray)
        } else {
            ("\u{f15b}"@, Color::DarkGray)
        },
    }
}

/// The icon and colour for a file name.
pub fn get_icon(filename: &str) -> (r: (&'static str, Color))
    ensures
        (r.0@, r.1) == icon_of(filename@),
{
    let lower = lower_extension_of(filename);
    match find_icon(lower.as_str()) {
        Some(icon) => icon,
        None => {
            let chars = chars_of(filename);
            if chars.len() > 0 && chars[0] == '.' {
                ("\u{f013}", Color::DarkGray)
            } else {
                ("\u{f15b}", Color::DarkGray)
            }
        },
    }
}

// ---------------------------------------------------------------------------
// What holds of names
// ---------------------------------------------------------------------------

/// No extension is one of two kinds of files.
pub proof fn lemma_kinds_apart(ext: Seq<char>)
    ensures
        !(image_ext(ext) && video_ext(ext)),
        !(image_ext(ext) && text_ext(ext)),
        !(video_ext(ext) && text_ext(ext)),
        image_ext(ext) || video_ext(ext) || text_ext(ext) ==> ext.len() > 0,
{
    reveal_strlit("png");
    reveal_strlit("jpg");
    reveal_strlit("jpeg");
    reveal_strlit("gif");
    reveal_strlit("webp");
    reveal_strlit("bmp");
    reveal_strlit("ico");
    reveal_strlit("mp4");
    reveal_strlit("mkv");
    reveal_strlit("avi");
    reveal_strlit("mov");
    reveal_strlit("webm");
    reveal_strlit("flv");
    reveal_strlit("wmv");
    reveal_strlit("m4v");
    reveal_strlit("txt");
    reveal_strlit("md");
    reveal_strlit("rs");
    reveal_strlit("c");
    reveal_strlit("h");
    reveal_strlit("cpp");
    reveal_strlit("cc");
    reveal_strlit("cxx");
    reveal_strlit("py");
    reveal_strlit("js");
    reveal_strlit("ts");
    reveal_strlit("json");
    reveal_strlit("yaml");
    reveal_strlit("yml");
    reveal_strlit("toml");
    reveal_strlit("go");
    reveal_strlit("java");
    reveal_strlit("sh");
    reveal_strlit("bash");
    reveal_strlit("zsh");
    reveal_strlit("css");
    reveal_strlit("xml");
    reveal_strlit("csv");
    assert(seq![ext[0], ext[1], ext[2], ext[3]].len() == 4);
}

/// Images have the icon of pictures, which only drawings and scans have besides. Videos have
/// the icon of films, and nothing else has. All kinds of text have an icon.
pub proof fn lemma_icons_of_kinds(ext: Seq<char>)
    ensures
        image_ext(ext) ==> icon_for(ext) == Some(("\u{f1c5}"@, Color::Rgb(160, 100, 210))),
        icon_for(ext) == Some(("\u{f1c5}"@, Color::Rgb(160, 100, 210))) ==> image_ext(ext) || ext
            == "svg"@ || ext == "tiff"@,
        video_ext(ext) <==> icon_for(ext) == Some(("\u{f1c8}"@, Color::Rgb(253, 216, 53))),
        text_ext(ext) ==> icon_for(ext) is Some,
{
    reveal_strlit("pdf");
    reveal_strlit("doc");
    reveal_strlit("docx");
    reveal_strlit("xls");
    reveal_strlit("xlsx");
    reveal_strlit("ppt");
    reveal_strlit("pptx");
    reveal_strlit("md");
    reveal_strlit("txt");
    reveal_strlit("log");
    reveal_strlit("tex");
    reveal_strlit("latex");
    reveal_strlit("rs");
    reveal_strlit("py");
    reveal_strlit("js");
    reveal_strlit("mjs");
    reveal_strlit("cjs");
    reveal_strlit("ts");
    reveal_strlit("mts");
    reveal_strlit("tsx");
    reveal_strlit("jsx");
    reveal_strlit("cpp");
    reveal_strlit("cc");
    reveal_strlit("cxx");
    reveal_strlit("hpp");
    reveal_strlit("c");
    reveal_strlit("h");
    reveal_strlit("go");
    reveal_strlit("java");
    reveal_strlit("kt");
    reveal_strlit("kts");
    reveal_strlit("swift");
    reveal_strlit("rb");
    reveal_strlit("php");
    reveal_strlit("lua");
    reveal_strlit("zig");
    reveal_strlit("nim");
    reveal_strlit("hs");
    reveal_strlit("lhs");
    reveal_strlit("ml");
    reveal_strlit("mli");
    reveal_strlit("ocaml");
    reveal_strlit("ex");
    reveal_strlit("exs");
    reveal_strlit("erl");
    reveal_strlit("r");
    reveal_strlit("R");
    reveal_strlit("scala");
    reveal_strlit("dart");
    reveal_strlit("v");
    reveal_strlit("sv");
    reveal_strlit("svh");
    reveal_strlit("sh");
    reveal_strlit("bash");
    reveal_strlit("zsh");
    reveal_strlit("fish");
    reveal_strlit("nix");
    reveal_strlit("html");
    reveal_strlit("htm");
    reveal_strlit("css");
    reveal_strlit("scss");
    reveal_strlit("sass");
    reveal_strlit("less");
    reveal_strlit("vue");
    reveal_strlit("svelte");
    reveal_strlit("json");
    reveal_strlit("jsonc");
    reveal_strlit("yaml");
    reveal_strlit("yml");
    reveal_strlit("toml");
    reveal_strlit("xml");
    reveal_strlit("xsl");
    reveal_strlit("csv");
    reveal_strlit("sql");
    reveal_strlit("graphql");
    reveal_strlit("gql");
    reveal_strlit("proto");
    reveal_strlit("dockerfile");
    reveal_strlit("lock");
    reveal_strlit("png");
    reveal_strlit("jpg");
    reveal_strlit("jpeg");
    reveal_strlit("gif");
    reveal_strlit("svg");
    reveal_strlit("webp");
    reveal_strlit("bmp");
    reveal_strlit("ico");
    reveal_strlit("tiff");
    reveal_strlit("mp3");
    reveal_strlit("wav");
    reveal_strlit("flac");
    reveal_strlit("ogg");
    reveal_strlit("aac");
    reveal_strlit("m4a");
    reveal_strlit("wma");
    reveal_strlit("mp4");
    reveal_strlit("mkv");
    reveal_strlit("avi");
    reveal_strlit("mov");
    reveal_strlit("webm");
    reveal_strlit("flv");
    reveal_strlit("wmv");
    reveal_strlit("m4v");
    reveal_strlit("zip");
    reveal_strlit("tar");
    reveal_strlit("gz");
    reveal_strlit("xz");
    reveal_strlit("bz2");
    reveal_strlit("7z");
    reveal_strlit("rar");
    reveal_strlit("zst");
    reveal_strlit("deb");
    reveal_strlit("rpm");
    reveal_strlit("ttf");
    reveal_strlit("otf");
    reveal_strlit("woff");
    reveal_strlit("woff2");
    reveal_strlit("bin");
    reveal_strlit("exe");
    reveal_strlit("so");
    reveal_strlit("dylib");
    reveal_strlit("dll");
    assert(seq![ext[0], ext[1], ext[2], ext[3]].len() == 4);
    let picture = Some(("\u{f1c5}"@, Color::Rgb(160, 100, 210)));
    assert(ext == "png"@ ==> icon_for(ext) == picture);
    assert(ext == "jpg"@ ==> icon_for(ext) == picture);
    assert(ext == "jpeg"@ ==> icon_for(ext) == picture);
    assert(ext == "gif"@ ==> icon_for(ext) == picture);
    assert(ext == "webp"@ ==> icon_for(ext) == picture);
    assert(ext == "bmp"@ ==> icon_for(ext) == picture);
    assert(ext == "ico"@ ==> icon_for(ext) == picture);
}

/// What a file is shows in the extension of its name alone: it does not count where the
/// file is, what stands in front of the extension, or in which case it is written.
pub proof fn lemma_kind_by_extension(
    dir: Seq<char>,
    stem: Seq<char>,
    ext: Seq<char>,
    other_dir: Seq<char>,
    other_stem: Seq<char>,
    other_ext: Seq<char>,
)
    requires
        stem.len() > 0,
        !stem.contains('/'),
        !ext.contains('/'),
        !ext.contains('.'),
        ext.len() > 0,
        other_stem.len() > 0,
        !other_stem.contains('/'),
        !other_ext.contains('/'),
        !other_ext.contains('.'),
        search_laws::differ_in_case(ext, other_ext),
    ensures
        ({
            let a = dir.push('/') + stem.push('.') + ext;
            let b = other_dir.push('/') + other_stem.push('.') + other_ext;
            &&& lower_extension(a) == lower_extension(b)
            &&& lower_extension(a) == text::lowercase(ext)
            &&& lower_extension(a).len() == ext.len()
        }),
{
    let name = "a"@;
    reveal_strlit("a");
    reveal_strlit(".");
    reveal_strlit("..");
    assert(name[0] == 'a' && name.len() == 1);
    assert(paths::is_plain(name));
    path_laws::lemma_extension(dir, stem, ext, name);
    path_laws::lemma_extension(other_dir, other_stem, other_ext, name);
    assert(text::lowercase(ext) =~= text::lowercase(other_ext));
}

/// Of the types of text all but HTML are text. Of the types of applications those in a
/// text format are. No type of another group is.
pub proof fn lemma_types_of_text(rest: Seq<char>, mime: Seq<char>)
    ensures
        is_text_type("text/"@ + rest) <==> rest != "html"@,
        is_text_type("application/"@ + rest + "+json"@),
        is_text_type("application/"@ + rest + "+xml"@),
        is_text_type("application/"@ + rest + "+yaml"@),
        is_text_type("application/"@ + rest + "+toml"@),
        !("text/"@.is_prefix_of(mime)) && !("application/"@.is_prefix_of(mime)) ==> !is_text_type(
            mime,
        ),
{
    reveal_strlit("text/");
    reveal_strlit("text/html");
    reveal_strlit("html");
    reveal_strlit("application/");
    reveal_strlit("+json");
    reveal_strlit("+xml");
    reveal_strlit("+yaml");
    reveal_strlit("+toml");
    let whole = "text/"@ + rest;
    assert("text/html"@ =~= "text/"@ + "html"@);
    assert(whole.skip(5) =~= rest);
    assert("text/html"@.skip(5) =~= "html"@);
    assert("text/"@ =~= whole.subrange(0, 5));
    assert("text/"@.is_prefix_of(whole));
    lemma_named_types_are_applications(whole);
    lemma_named_types_are_applications(mime);
    assert(whole[0] == 't');
    if "application/"@.is_prefix_of(whole) {
        assert(whole.subrange(0, 12)[0] == 'a');
    }
    lemma_type_with_suffix(rest, "+json"@);
    lemma_type_with_suffix(rest, "+xml"@);
    lemma_type_with_suffix(rest, "+yaml"@);
    lemma_type_with_suffix(rest, "+toml"@);
}

proof fn lemma_type_with_suffix(rest: Seq<char>, suffix: Seq<char>)
    ensures
        "application/"@.is_prefix_of("application/"@ + rest + suffix),
        suffix.is_suffix_of(
            ("application/"@ + rest + suffix).skip("application/"@.len() as int),
        ),
{
    let whole = "application/"@ + rest + suffix;
    let n = "application/"@.len() as int;
    assert(whole.subrange(0, n) =~= "application/"@);
    assert(whole.skip(n) =~= rest + suffix);
    let tail = rest + suffix;
    assert(tail.subrange(tail.len() - suffix.len(), tail.len() as int) =~= suffix);
}

proof fn lemma_named_types_are_applications(mime: Seq<char>)
    ensures
        is_named_text_mime(mime) ==> "application/"@.is_prefix_of(mime),
{
    reveal_strlit("application/");
    reveal_strlit("application/json");
    reveal_strlit("application/xml");
    reveal_strlit("application/x-yaml");
    reveal_strlit("application/yaml");
    reveal_strlit("application/toml");
    reveal_strlit("application/x-toml");
    reveal_strlit("application/javascript");
    reveal_strlit("application/x-shellscript");
    reveal_strlit("application/x-sh");
    if is_named_text_mime(mime) {
        assert(mime.subrange(0, 12) =~= "application/"@);
    }
}

/// A name without an extension has the icon of hidden files if it starts with a dot, and else
/// that of any file. A hidden file without an extension is taken for text, another is not.
pub proof fn lemma_names_without_extension(dir: Seq<char>, name: Seq<char>)
    requires
        paths::is_plain(name),
        forall|i: int| 0 < i < name.len() ==> name[i] != '.',
    ensures
        named_as_text(dir.push('/') + name) <==> name[0] == '.',
        name[0] == '.' ==> icon_of(name) == ("\u{f013}"@, Color::DarkGray),
        name[0] != '.' ==> icon_of(name) == ("\u{f15b}"@, Color::DarkGray),
        icon_for(Seq::empty()) is None,
{
    let path = dir.push('/') + name;
    let none = Seq::<char>::empty();
    reveal_strlit(".");
    assert("a"@.len() == 1 && "a"@[0] == 'a') by {
        reveal_strlit("a");
    }
    path_laws::lemma_extension(dir, "a"@, "a"@, name);
    text::lemma_pieces_of_concat(dir, name, '/');
    text::lemma_pieces_of_plain(name, '/');
    reveal_with_fuel(paths::last_name, 2);
    assert(text::pieces(path, '/').last() == name);
    assert(paths::file_name(path) == Some(name));
    assert(seq![name].last() == name);
    assert(paths::file_name(name) == Some(name));
    assert(paths::extension(name) == paths::extension(path));
    assert(text::lowercase(none) =~= none);
    lemma_kinds_apart(none);
    lemma_no_icon_without_extension();
}


proof fn lemma_no_icon_without_extension()
    ensures
        icon_for(Seq::empty()) is None,
{
    reveal_strlit("pdf");
    reveal_strlit("doc");
    reveal_strlit("docx");
    reveal_strlit("xls");
    reveal_strlit("xlsx");
    reveal_strlit("ppt");
    reveal_strlit("pptx");
    reveal_strlit("md");
    reveal_strlit("txt");
    reveal_strlit("log");
    reveal_strlit("tex");
    reveal_strlit("latex");
    reveal_strlit("rs");
    reveal_strlit("py");
    reveal_strlit("js");
    reveal_strlit("mjs");
    reveal_strlit("cjs");
    reveal_strlit("ts");
    reveal_strlit("mts");
    reveal_strlit("tsx");
    reveal_strlit("jsx");
    reveal_strlit("cpp");
    reveal_strlit("cc");
    reveal_strlit("cxx");
    reveal_strlit("hpp");
    reveal_strlit("c");
    reveal_strlit("h");
    reveal_strlit("go");
    reveal_strlit("java");
    reveal_strlit("kt");
    reveal_strlit("kts");
    reveal_strlit("swift");
    reveal_strlit("rb");
    reveal_strlit("php");
    reveal_strlit("lua");
    reveal_strlit("zig");
    reveal_strlit("nim");
    reveal_strlit("hs");
    reveal_strlit("lhs");
    reveal_strlit("ml");
    reveal_strlit("mli");
    reveal_strlit("ocaml");
    reveal_strlit("ex");
    reveal_strlit("exs");
    reveal_strlit("erl");
    reveal_strlit("r");
    reveal_strlit("R");
    reveal_strlit("scala");
    reveal_strlit("dart");
    reveal_strlit("v");
    reveal_strlit("sv");
    reveal_strlit("svh");
    reveal_strlit("sh");
    reveal_strlit("bash");
    reveal_strlit("zsh");
    reveal_strlit("fish");
    reveal_strlit("nix");
    reveal_strlit("html");
    reveal_strlit("htm");
    reveal_strlit("css");
    reveal_strlit("scss");
    reveal_strlit("sass");
    reveal_strlit("less");
    reveal_strlit("vue");
    reveal_strlit("svelte");
    reveal_strlit("json");
    reveal_strlit("jsonc");
    reveal_strlit("yaml");
    reveal_strlit("yml");
    reveal_strlit("toml");
    reveal_strlit("xml");
    reveal_strlit("xsl");
    reveal_strlit("csv");
    reveal_strlit("sql");
    reveal_strlit("graphql");
    reveal_strlit("gql");
    reveal_strlit("proto");
    reveal_strlit("dockerfile");
    reveal_strlit("lock");
    reveal_strlit("png");
    reveal_strlit("jpg");
    reveal_strlit("jpeg");
    reveal_strlit("gif");
    reveal_strlit("svg");
    reveal_strlit("webp");
    reveal_strlit("bmp");
    reveal_strlit("ico");
    reveal_strlit("tiff");
    reveal_strlit("mp3");
    reveal_strlit("wav");
    reveal_strlit("flac");
    reveal_strlit("ogg");
    reveal_strlit("aac");
    reveal_strlit("m4a");
    reveal_strlit("wma");
    reveal_strlit("mp4");
    reveal_strlit("mkv");
    reveal_strlit("avi");
    reveal_strlit("mov");
    reveal_strlit("webm");
    reveal_strlit("flv");
    reveal_strlit("wmv");
    reveal_strlit("m4v");
    reveal_strlit("zip");
    reveal_strlit("tar");
    reveal_strlit("gz");
    reveal_strlit("xz");
    reveal_strlit("bz2");
    reveal_strlit("7z");
    reveal_strlit("rar");
    reveal_strlit("zst");
    reveal_strlit("deb");
    reveal_strlit("rpm");
    reveal_strlit("ttf");
    reveal_strlit("otf");
    reveal_strlit("woff");
    reveal_strlit("woff2");
    reveal_strlit("bin");
    reveal_strlit("exe");
    reveal_strlit("so");
    reveal_strlit("dylib");
    reveal_strlit("dll");
    assert(Seq::<char>::empty().len() == 0);
}

} // verus!
