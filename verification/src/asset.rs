use vstd::prelude::*;

use crate::data::Data;
use crate::text::{chars_eq, chars_of, hex_width, push_decimal, push_hex, string_from_chars};
use crate::texture::{bytes_per_pixel, into_rgba, multiply_channels, rgba_pixels, Bitmap, PixelLayout};
use crate::version::{hashed_text, key_text, push_hashed_text, sea_hash, seahash_of, VersionKey};
use vstd::string::StringExecFns;

verus! {

/// Image formats that assets can be converted into.
#[derive(Debug, Clone, Copy, PartialEq, Eq, Structural)]
pub enum Format {
    Jpeg,
    Png,
    Webp,
}

/// The file extension, and request name, of a format.
pub open spec fn format_extension(format: Format) -> Seq<char> {
    match format {
        Format::Jpeg => seq!['j', 'p', 'g'],
        Format::Png => seq!['p', 'n', 'g'],
        Format::Webp => seq!['w', 'e', 'b', 'p'],
    }
}

/// The format named by `name`, if any.
pub open spec fn format_named(name: Seq<char>) -> Option<Format> {
    if name == format_extension(Format::Jpeg) {
        Some(Format::Jpeg)
    } else if name == format_extension(Format::Png) {
        Some(Format::Png)
    } else if name == format_extension(Format::Webp) {
        Some(Format::Webp)
    } else {
        None
    }
}

/// Failures of the asset service.
#[derive(Debug)]
pub enum Error {
    /// No file exists at the given path.
    NotFound(String),
    /// The file at the given path cannot be read: the path and the reason.
    UnsupportedSource(String, String),
    /// Files with this extension cannot be converted into the format.
    InvalidConversion(String, Format),
    /// The text does not name a known format.
    UnknownFormat(String),
    /// Any other failure, with its description.
    Failure(String),
}

impl Error {
    /// The message this error is reported with.
    pub open spec fn message_spec(self) -> Seq<char> {
        match self {
            Error::NotFound(path) => "no file found at "@ + path@,
            Error::UnsupportedSource(path, reason) => "unsupported source file "@ + path@ + ": "@ + reason@,
            Error::InvalidConversion(extension, format) => "cannot convert "@ + extension@ + " files to "@
                + format_extension(format),
            Error::UnknownFormat(name) => "unknown format \""@ + name@ + "\""@,
            Error::Failure(description) => description@,
        }
    }

    /// The message this error is reported with.
    pub fn message(&self) -> (out: String)
        ensures
            out@ == self.message_spec(),
    {
        match self {
            Error::NotFound(path) => {
                let mut out = "no file found at ".to_owned();
                out.append(path.as_str());
                out
            },
            Error::UnsupportedSource(path, reason) => {
                let mut out = "unsupported source file ".to_owned();
                out.append(path.as_str());
                out.append(": ");
                out.append(reason.as_str());
                out
            },
            Error::InvalidConversion(extension, format) => {
                let mut out = "cannot convert ".to_owned();
                out.append(extension.as_str());
                out.append(" files to ");
                out.append(format.extension());
                out
            },
            Error::UnknownFormat(name) => {
                let mut out = "unknown format \"".to_owned();
                out.append(name.as_str());
                out.append("\"");
                out
            },
            Error::Failure(description) => description.clone(),
        }
    }
}

impl Format {
    /// The file extension of this format.
    pub fn extension(&self) -> (out: &'static str)
        ensures
            out@ == format_extension(*self),
    {
        match self {
            Format::Jpeg => {
                proof {
                    reveal_strlit("jpg");
                }
                "jpg"
            },
            Format::Png => {
                proof {
                    reveal_strlit("png");
                }
                "png"
            },
            Format::Webp => {
                proof {
                    reveal_strlit("webp");
                }
                "webp"
            },
        }
    }

    /// Reads a format from its name (its extension).
    pub fn from_str(input: &str) -> (out: Result<Format, Error>)
        ensures
            out is Ok <==> format_named(input@) is Some,
            out matches Ok(f) ==> format_named(input@) == Some(f),
            out matches Err(e) ==> e matches Error::UnknownFormat(name) && name@ == input@,
    {
        let name = chars_of(input);
        let jpg = vec!['j', 'p', 'g'];
        let png = vec!['p', 'n', 'g'];
        let webp = vec!['w', 'e', 'b', 'p'];
        assert(jpg@ =~= format_extension(Format::Jpeg));
        assert(png@ =~= format_extension(Format::Png));
        assert(webp@ =~= format_extension(Format::Webp));
        if chars_eq(&name, &jpg) {
            Ok(Format::Jpeg)
        } else if chars_eq(&name, &png) {
            Ok(Format::Png)
        } else if chars_eq(&name, &webp) {
            Ok(Format::Webp)
        } else {
            Err(Error::UnknownFormat(input.to_owned()))
        }
    }
}

// ---------------------------------------------------------------------------
// Conversions.
// ---------------------------------------------------------------------------

/// The kind of game file that a conversion reads.
#[derive(Debug, Clone, Copy, PartialEq, Eq, Structural)]
pub enum SourceKind {
    Texture,
}

/// A conversion to perform: read the file at `path` of the given version as
/// `source`, and write it as `format`.
#[derive(Debug)]
pub struct Conversion {
    pub version: VersionKey,
    pub path: String,
    pub source: SourceKind,
    pub format: Format,
}

/// Something that decides how game files become images.
pub trait Converter {
    /// How the file at `path` of `version` becomes an image of `format`; a
    /// conversion, when there is one, reads that file into that format.
    fn convert(&self, version: VersionKey, path: &str, format: Format) -> (out: Result<Conversion, Error>)
        ensures
            out matches Ok(c) ==> c.path@ == path@ && c.format == format && c.version == version,
    ;
}

/// The converter for texture files.
pub struct Image;

/// The position of the last `.` of a text, if any.
pub open spec fn last_dot(s: Seq<char>) -> Option<int>
    decreases s.len(),
{
    if s.len() == 0 {
        None
    } else if s.last() == '.' {
        Some(s.len() - 1)
    } else {
        last_dot(s.drop_last())
    }
}

/// The position of the last `/` of a text, if any.
pub open spec fn last_slash(s: Seq<char>) -> Option<int>
    decreases s.len(),
{
    if s.len() == 0 {
        None
    } else if s.last() == '/' {
        Some(s.len() - 1)
    } else {
        last_slash(s.drop_last())
    }
}

/// What follows the last `/` of a path (the whole path when it has none).
pub open spec fn last_component(path: Seq<char>) -> Seq<char> {
    match last_slash(path) {
        Some(i) => path.skip(i + 1),
        None => path,
    }
}

/// A path whose components are separated by `/` alone on every platform:
/// no `\\`, no drive or prefix (`:`), and not starting with `//`.
pub open spec fn plain_path(path: Seq<char>) -> bool {
    &&& forall|i: int| 0 <= i < path.len() ==> #[trigger] path[i] != '\\' && path[i] != ':'
    &&& !(path.len() >= 2 && path[0] == '/' && path[1] == '/')
}

/// A component that names a file: not empty, `.` or `..`.
pub open spec fn named_component(c: Seq<char>) -> bool {
    c.len() > 0 && c != "."@ && c != ".."@
}

/// A path that is a bare file name on every platform: no separator (`/`,
/// `\\`), no drive prefix (`:`), and not `..`.
pub open spec fn bare_name(path: Seq<char>) -> bool {
    &&& forall|i: int| 0 <= i < path.len() ==> #[trigger] path[i] != '/' && path[i] != '\\' && path[i] != ':'
    &&& path != ".."@
}

/// The extension of a file name: what follows its last `.`, where that `.`
/// is not the first character.
pub open spec fn name_extension(name: Seq<char>) -> Option<Seq<char>> {
    match last_dot(name) {
        Some(i) => if i > 0 {
            Some(name.skip(i + 1))
        } else {
            None
        },
        None => None,
    }
}

/// The extension of the file name of a path, as `std::path::Path::extension`
/// gives it. Its documentation: the extension is what follows the final `.`
/// of the file name (the last component of the path), and there is none
/// where the file name has no `.` or starts with its only `.`; components are
/// separated by `/` on every platform, repeated and trailing separators are
/// ignored and `.` components are dropped, so the file name of a plain path
/// whose text after its last `/` names a file is that text, and a bare file
/// name is its own (`..` has none). Of paths with `\\`, `:` or a leading
/// `//`, whose reading differs between platforms, nothing is claimed beyond
/// that a path without `.` has no extension.
#[verifier::external_body]
fn path_extension(path: &str) -> (out: Option<String>)
    ensures
        !path@.contains('.') ==> out is None,
        bare_name(path@) ==> match name_extension(path@) {
            Some(e) => out matches Some(x) && x@ == e,
            None => out is None,
        },
        plain_path(path@) && named_component(last_component(path@)) ==> match name_extension(
            last_component(path@),
        ) {
            Some(e) => out matches Some(x) && x@ == e,
            None => out is None,
        },
{
    std::path::Path::new(path).extension().and_then(|extension| extension.to_str()).map(
        |extension| extension.to_owned(),
    )
}

/// `out` is how a file with the given extension becomes an image (see
/// `conversion_for_extension`).
pub open spec fn extension_outcome(
    extension: Option<Seq<char>>,
    version: VersionKey,
    path: Seq<char>,
    format: Format,
    out: Result<Conversion, Error>,
) -> bool {
    match extension {
        Some(e) => if is_texture_extension(e) {
            out matches Ok(c) && c.path@ == path && c.format == format && c.version == version && c.source
                == SourceKind::Texture
        } else {
            out matches Err(Error::InvalidConversion(x, f)) && x@ == e && f == format
        },
        None => out matches Err(Error::InvalidConversion(x, f)) && x@ == "(none)"@ && f == format,
    }
}

/// What converting a file into an image gives: the outcome for the
/// extension of its path, which is exactly known for a bare file name and
/// for a plain path whose last component names a file, and is none for a
/// path without `.`.
pub open spec fn image_conversion(
    version: VersionKey,
    path: Seq<char>,
    format: Format,
    out: Result<Conversion, Error>,
) -> bool {
    &&& exists|e: Option<Seq<char>>| extension_outcome(e, version, path, format, out)
    &&& bare_name(path) ==> extension_outcome(name_extension(path), version, path, format, out)
    &&& plain_path(path) && named_component(last_component(path)) ==> extension_outcome(
        name_extension(last_component(path)),
        version,
        path,
        format,
        out,
    )
    &&& !path.contains('.') ==> extension_outcome(None, version, path, format, out)
}

pub open spec fn is_texture_extension(extension: Seq<char>) -> bool {
    extension == "tex"@ || extension == "atex"@
}

/// How a file with the given extension becomes an image: texture files
/// (`tex`, `atex`) are read as textures; any other extension, or none, cannot
/// be converted.
pub fn conversion_for_extension(extension: Option<&str>, version: VersionKey, path: &str, format: Format) -> (out:
    Result<Conversion, Error>)
    ensures
        match extension {
            Some(e) => if is_texture_extension(e@) {
                out matches Ok(c) && c.path@ == path@ && c.format == format && c.version == version && c.source
                    == SourceKind::Texture
            } else {
                out matches Err(Error::InvalidConversion(x, f)) && x@ == e@ && f == format
            },
            None => out matches Err(Error::InvalidConversion(x, f)) && x@ == "(none)"@ && f == format,
        },
{
    match extension {
        Some(e) => {
            let cs = chars_of(e);
            let tex = vec!['t', 'e', 'x'];
            let atex = vec!['a', 't', 'e', 'x'];
            proof {
                reveal_strlit("tex");
                reveal_strlit("atex");
            }
            assert(tex@ =~= "tex"@);
            assert(atex@ =~= "atex"@);
            if chars_eq(&cs, &tex) || chars_eq(&cs, &atex) {
                Ok(Conversion { version, path: path.to_owned(), source: SourceKind::Texture, format })
            } else {
                Err(Error::InvalidConversion(e.to_owned(), format))
            }
        },
        None => Err(Error::InvalidConversion("(none)".to_owned(), format)),
    }
}

impl Converter for Image {
    /// Texture files (by the extension of their path) are read as
    /// textures; other files cannot be converted.
    fn convert(&self, version: VersionKey, path: &str, format: Format) -> (out: Result<Conversion, Error>)
        ensures
            image_conversion(version, path@, format, out),
    {
        let extension = path_extension(path);
        match &extension {
            Some(e) => {
                let out = conversion_for_extension(Some(e.as_str()), version, path, format);
                assert(extension_outcome(Some(e@), version, path@, format, out));
                out
            },
            None => {
                let out = conversion_for_extension(None, version, path, format);
                assert(extension_outcome(None, version, path@, format, out));
                out
            },
        }
    }
}

impl Format {
    /// The converter for this format.
    pub fn converter(&self) -> (out: &'static dyn Converter) {
        match self {
            Format::Jpeg => &Image,
            Format::Png => &Image,
            Format::Webp => &Image,
        }
    }
}

/// The asset service: converts game files into images.
pub struct Service {
    data: Data,
}

impl Service {
    /// A service reading the given game data.
    pub fn new(data: Data) -> (out: Service)
        ensures
            out.data() == data,
    {
        Service { data }
    }

    pub closed spec fn data(&self) -> Data {
        self.data
    }

    /// The service needs no warm-up: always ready.
    pub fn ready(&self) -> (out: bool)
        ensures
            out,
    {
        true
    }

    /// How the file at `path` of `version` becomes an image of `format`:
    /// failing when the version's data is not loaded, else as the format's
    /// converter, `Image` for every format, decides.
    pub fn convert(&self, version: VersionKey, path: &str, format: Format) -> (out: Result<Conversion, Error>)
        ensures
            !self.data().loaded().contains(version) ==> (out matches Err(Error::Failure(m)) && m@
                == "data for "@ + key_text(version) + " not ready"@),
            self.data().loaded().contains(version) ==> image_conversion(version, path@, format, out),
    {
        if !self.data.has_version(version) {
            let mut message = "data for ".to_owned();
            let key = version.to_string();
            message.append(key.as_str());
            message.append(" not ready");
            return Err(Error::Failure(message));
        }
        Image.convert(version, path, format)
    }

    /// The textures to read for the map of a territory in `version`: the map
    /// and its background; fails when the version's data is not loaded.
    pub fn map(&self, version: VersionKey, territory: &str, index: &str) -> (out: Result<(String, String), Error>)
        ensures
            !self.data().loaded().contains(version) ==> (out matches Err(Error::Failure(m)) && m@
                == "data for "@ + key_text(version) + " not ready"@),
            self.data().loaded().contains(version) ==> (out matches Ok((a, b)) && a@ == map_base_path(
                territory@,
                index@,
            ) + "_m.tex"@ && b@ == map_base_path(territory@, index@) + "m_m.tex"@),
    {
        if !self.data.has_version(version) {
            let mut message = "data for ".to_owned();
            let key = version.to_string();
            message.append(key.as_str());
            message.append(" not ready");
            return Err(Error::Failure(message));
        }
        Ok(map_texture_paths(territory, index))
    }
}

// ---------------------------------------------------------------------------
// Maps.
// ---------------------------------------------------------------------------
/// The path that the textures of a map start with.
pub open spec fn map_base_path(territory: Seq<char>, index: Seq<char>) -> Seq<char> {
    "ui/map/"@ + territory + "/"@ + index + "/"@ + territory + index
}

/// The paths of a map's texture and of its background texture.
pub fn map_texture_paths(territory: &str, index: &str) -> (out: (String, String))
    ensures
        out.0@ == map_base_path(territory@, index@) + "_m.tex"@,
        out.1@ == map_base_path(territory@, index@) + "m_m.tex"@,
{
    let mut base = "ui/map/".to_owned();
    base.append(territory);
    base.append("/");
    base.append(index);
    base.append("/");
    base.append(territory);
    base.append(index);
    let mut map = base.clone();
    map.append("_m.tex");
    let mut background = base;
    background.append("m_m.tex");
    (map, background)
}

pub open spec fn map_dimensions_message() -> Seq<char> {
    "map and background dimensions differ"@
}

/// A map composed over its background, both taken as RGBA: where the
/// background texture does not exist, the map is taken as already composed;
/// otherwise the two must have the same dimensions, and each channel of the
/// map is multiplied by the background's, 255 standing for one.
pub fn compose_map(map: Bitmap, background: Result<Bitmap, Error>) -> (out: Result<Bitmap, Error>)
    requires
        map.pixels@.len() >= map.width * map.height * bytes_per_pixel(map.layout),
        map.width * map.height * 4 <= usize::MAX,
        background matches Ok(b) ==> b.pixels@.len() >= b.width * b.height * bytes_per_pixel(b.layout)
            && b.width * b.height * 4 <= usize::MAX,
    ensures
        match background {
            Err(Error::NotFound(_)) => out matches Ok(c) && c.width == map.width && c.height == map.height
                && c.layout == PixelLayout::Rgba8 && c.pixels@ == rgba_pixels(map),
            Err(e) => out == Err::<Bitmap, Error>(e),
            Ok(b) => if b.width != map.width || b.height != map.height {
                out matches Err(Error::Failure(m)) && m@ == map_dimensions_message()
            } else {
                out matches Ok(c) && c.width == map.width && c.height == map.height && c.layout
                    == PixelLayout::Rgba8 && c.pixels@.len() == rgba_pixels(map).len() && forall|i: int|
                    0 <= i < c.pixels@.len() ==> #[trigger] c.pixels@[i] as int == (rgba_pixels(map)[i] as int)
                        * (rgba_pixels(b)[i] as int) / 255
            },
        },
{
    let mut composed = into_rgba(map);
    let background = match background {
        Err(Error::NotFound(_)) => return Ok(composed),
        Err(e) => return Err(e),
        Ok(b) => into_rgba(b),
    };
    if background.width != composed.width || background.height != composed.height {
        return Err(Error::Failure("map and background dimensions differ".to_owned()));
    }
    multiply_channels(&mut composed.pixels, &background.pixels);
    Ok(composed)
}

// ---------------------------------------------------------------------------
// Entity tags and documentation examples.
// ---------------------------------------------------------------------------

/// The version of the conversion output; changing it changes every tag.
pub const ASSET_ETAG_VERSION: u64 = 2;

/// The entity tag of a converted asset: the SeaHash of the path and the
/// format's extension (each hashed as text), then the version key and the
/// output version, quoted.
pub open spec fn etag_spec(path: Seq<char>, format: Format, version: VersionKey) -> Seq<char> {
    let hash = seahash_of(hashed_text(path) + hashed_text(format_extension(format)));
    "\""@ + hex_width(hash as nat, 16) + "."@ + key_text(version) + "."@ + crate::text::decimal(
        ASSET_ETAG_VERSION as nat,
    ) + "\""@
}

/// The entity tag of a converted asset.
pub fn etag(path: &str, format: Format, version: VersionKey) -> (out: String)
    ensures
        out@ == etag_spec(path@, format, version),
{
    let mut bytes: Vec<u8> = Vec::new();
    push_hashed_text(&mut bytes, path);
    push_hashed_text(&mut bytes, format.extension());
    let hash = sea_hash(bytes.as_slice());
    let mut out = "\"".to_owned();
    push_hex(&mut out, hash, 16);
    out.append(".");
    let key = version.to_string();
    out.append(key.as_str());
    out.append(".");
    push_decimal(&mut out, ASSET_ETAG_VERSION);
    out.append("\"");
    out
}

/// The file name of a path, as `std::path::Path::file_name` gives it. Its
/// documentation: the final component of the path, and none where the path
/// ends in `..`; components are read as for `path_extension`. So the file
/// name of a plain path is the text after its last `/` where that names a
/// file, and none where that text is `..`; nothing is claimed of other paths.
#[verifier::external_body]
fn path_file_name(path: &str) -> (out: Option<String>)
    ensures
        plain_path(path@) && named_component(last_component(path@)) ==> out is Some && out->Some_0@ == last_component(
            path@,
        ),
        plain_path(path@) && is_parent(last_component(path@)) ==> out is None,
{
    std::path::Path::new(path).file_name().and_then(|name| name.to_str()).map(|name| name.to_owned())
}

/// Whether a component is `..`, the parent directory.
pub open spec fn is_parent(c: Seq<char>) -> bool {
    c == ".."@
}

/// A file name with its extension set to `extension`, as
/// `std::path::PathBuf::set_extension` documents it: an extension the name
/// has (see `name_extension`) is replaced, and otherwise one is added.
pub open spec fn with_extension_name(name: Seq<char>, extension: Seq<char>) -> Seq<char> {
    let stem = match name_extension(name) {
        Some(e) => name.take(name.len() - e.len() - 1),
        None => name,
    };
    stem + "."@ + extension
}

/// The `Content-Disposition` of a converted asset whose game file has the
/// given file name: inline, named as the file with the extension of the
/// format, or without a name where the path has no file name.
pub open spec fn disposition_text(name: Option<Seq<char>>, format: Format) -> Seq<char> {
    match name {
        Some(n) => "inline; filename=\""@ + with_extension_name(n, format_extension(format)) + "\""@,
        None => "inline"@,
    }
}

proof fn lemma_last_dot_before(s: Seq<char>, i: int)
    requires
        0 <= i <= s.len(),
        forall|j: int| i <= j < s.len() ==> s[j] != '.',
    ensures
        last_dot(s) == last_dot(s.take(i)),
    decreases s.len() - i,
{
    if i == s.len() {
        assert(s.take(i) =~= s);
    } else {
        let p = s.drop_last();
        assert(p.take(i) =~= s.take(i));
        lemma_last_dot_before(p, i);
    }
}

/// The `Content-Disposition` for a converted asset, given the file name of
/// its game path (see `disposition_text`).
pub fn disposition_for_name(name: Option<&str>, format: Format) -> (out: String)
    ensures
        out@ == disposition_text(
            match name {
                Some(n) => Some(n@),
                None => None,
            },
            format,
        ),
{
    let name = match name {
        None => return "inline".to_owned(),
        Some(n) => n,
    };
    let cs = chars_of(name);
    let mut i: usize = cs.len();
    while i > 0 && cs[i - 1] != '.'
        invariant
            i <= cs@.len(),
            forall|j: int| i <= j < cs@.len() ==> cs@[j] != '.',
        decreases i,
    {
        i = i - 1;
    }
    proof {
        lemma_last_dot_before(cs@, i as int);
        if i > 0 {
            assert(cs@.take(i as int).last() == '.');
        }
    }
    let stem_end: usize = if i > 1 { i - 1 } else { cs.len() };
    assert(cs@.skip(i as int).len() == cs@.len() - i);
    let mut out = "inline; filename=\"".to_owned();
    let stem = string_from_chars(&cs, 0, stem_end);
    out.append(stem.as_str());
    out.append(".");
    out.append(format.extension());
    out.append("\"");
    assert(cs@.subrange(0, stem_end as int) == match name_extension(name@) {
        Some(e) => name@.take(name@.len() - e.len() - 1),
        None => name@,
    });
    out
}

/// The `Content-Disposition` for converting the game file at `path` into
/// `format`: named after the path's file name (`std::path::Path::file_name`),
/// with the format's extension.
pub fn disposition(path: &str, format: Format) -> (out: String)
    ensures
        plain_path(path@) && named_component(last_component(path@)) ==> out@ == disposition_text(
            Some(last_component(path@)),
            format,
        ),
        plain_path(path@) && is_parent(last_component(path@)) ==> out@ == "inline"@,
{
    match path_file_name(path) {
        Some(name) => disposition_for_name(Some(name.as_str()), format),
        None => disposition_for_name(None, format),
    }
}

/// The game path shown as an example in the asset API's documentation.
pub fn example_path() -> (out: &'static str)
    ensures
        out@ == "ui/icon/051000/051474_hr1.tex"@,
{
    "ui/icon/051000/051474_hr1.tex"
}

/// The format shown as an example in the asset API's documentation.
pub fn example_format() -> (out: Format)
    ensures
        out == Format::Png,
{
    Format::Png
}

/// Reading back the name of a format gives that format.
pub proof fn lemma_format_roundtrip(format: Format)
    ensures
        format_named(format_extension(format)) == Some(format),
{
    let e = format_extension(format);
    match format {
        Format::Jpeg => {},
        Format::Png => {
            assert(e[0] != format_extension(Format::Jpeg)[0]);
        },
        Format::Webp => {
            assert(e.len() != format_extension(Format::Jpeg).len());
            assert(e.len() != format_extension(Format::Png).len());
        },
    }
}

} // verus!
