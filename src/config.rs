//! Project settings: configuration file formats, the project configuration
//! and its directory layout, and the normalisation of pack and recipe names.
use crate::ingot::word_is;
use crate::text::{ascii_lower_seq, ascii_lowercase, chars_of, is_white, is_whitespace, string_from_chars, trim, trim_chars};
use std::collections::BTreeMap;
use vstd::prelude::*;

verus! {

/// A serialisation format for configuration files.
#[derive(Debug, Clone, Copy, PartialEq, Eq, Structural)]
pub enum FileType {
    Ron,
    Toml,
    Json,
    Xml,
    Hcl,
}

/// The lower-case name of a format, also its file extension.
pub open spec fn file_type_name(t: FileType) -> Seq<char> {
    match t {
        FileType::Ron => "ron"@,
        FileType::Toml => "toml"@,
        FileType::Json => "json"@,
        FileType::Xml => "xml"@,
        FileType::Hcl => "hcl"@,
    }
}

/// The format that `s` names, in any ASCII case.
pub open spec fn file_type_of(s: Seq<char>) -> Option<FileType> {
    let l = ascii_lower_seq(s);
    if l == "ron"@ {
        Some(FileType::Ron)
    } else if l == "toml"@ {
        Some(FileType::Toml)
    } else if l == "json"@ {
        Some(FileType::Json)
    } else if l == "xml"@ {
        Some(FileType::Xml)
    } else if l == "hcl"@ {
        Some(FileType::Hcl)
    } else {
        None
    }
}

/// A text that names no configuration format.
#[derive(Debug, Clone, Copy, PartialEq, Eq, Structural)]
pub struct UnknownFileType;

impl FileType {
    /// The names of the formats, in declaration order.
    pub const VARIANTS: [&'static str; 5] = ["ron", "toml", "json", "xml", "hcl"];

    /// The format that `s` names, in any ASCII case.
    pub fn from_name(s: &str) -> (r: Option<FileType>)
        ensures
            r == file_type_of(s@),
    {
        let l = ascii_lowercase(&chars_of(s));
        if word_is(&l, "ron") {
            Some(FileType::Ron)
        } else if word_is(&l, "toml") {
            Some(FileType::Toml)
        } else if word_is(&l, "json") {
            Some(FileType::Json)
        } else if word_is(&l, "xml") {
            Some(FileType::Xml)
        } else if word_is(&l, "hcl") {
            Some(FileType::Hcl)
        } else {
            None
        }
    }

    /// The lower-case name of the format, also its file extension.
    pub fn name(&self) -> (r: &'static str)
        ensures
            r@ == file_type_name(*self),
    {
        match self {
            FileType::Ron => "ron",
            FileType::Toml => "toml",
            FileType::Json => "json",
            FileType::Xml => "xml",
            FileType::Hcl => "hcl",
        }
    }

    /// The lower-case name of the format.
    pub fn to_string(&self) -> (r: String)
        ensures
            r@ == file_type_name(*self),
    {
        let s = self.name();
        string_from_chars(&chars_of(s))
    }
}

impl Default for FileType {
    fn default() -> (r: FileType)
        ensures
            r == FileType::Ron,
    {
        FileType::Ron
    }
}

impl std::str::FromStr for FileType {
    type Err = UnknownFileType;

    fn from_str(s: &str) -> Result<FileType, UnknownFileType> {
        match FileType::from_name(s) {
            Some(t) => Ok(t),
            None => Err(UnknownFileType),
        }
    }
}

/// The format of a new project's configuration file.
pub fn default_config_file_type() -> (r: FileType)
    ensures
        r == FileType::Ron,
{
    FileType::Ron
}

/// The text `s` as an owned string.
fn owned(s: &str) -> (r: String)
    ensures
        r@ == s@,
{
    string_from_chars(&chars_of(s))
}

/// The project name of a new configuration.
pub fn default_project_name() -> (r: String)
    ensures
        r@ == "nibi_project"@,
{
    owned("nibi_project")
}

/// The site name of a new configuration.
pub fn default_site_name() -> (r: String)
    ensures
        r@ == "nibi_site"@,
{
    owned("nibi_site")
}

/// The directories of a project, relative to its root.
#[derive(Debug, Clone, PartialEq, Eq)]
pub struct DirConf {
    pub site: String,
    pub zairyo: String,
    pub igata: String,
    pub gears: String,
}

/// Whether a layout is the default one.
pub open spec fn is_default_layout(d: DirConf) -> bool {
    d.site@ == "site"@ && d.zairyo@ == "zairyo"@ && d.igata@ == "igata"@ && d.gears@ == "gears"@
}

impl Default for DirConf {
    fn default() -> (r: DirConf)
        ensures
            is_default_layout(r),
    {
        DirConf {
            site: owned("site"),
            zairyo: owned("zairyo"),
            igata: owned("igata"),
            gears: owned("gears"),
        }
    }
}

impl DirConf {
    /// Whether this is the default layout.
    pub fn is_default(&self) -> (r: bool)
        ensures
            r == is_default_layout(*self),
    {
        word_is(&chars_of(self.site.as_str()), "site") && word_is(
            &chars_of(self.zairyo.as_str()),
            "zairyo",
        ) && word_is(&chars_of(self.igata.as_str()), "igata") && word_is(
            &chars_of(self.gears.as_str()),
            "gears",
        )
    }
}

/// The configuration of a project.
#[derive(Debug, Clone, PartialEq, Eq)]
pub struct Config {
    pub project_name: String,
    pub site_name: String,
    pub dir_conf: DirConf,
}

impl Default for Config {
    fn default() -> (r: Config)
        ensures
            r.project_name@ == "nibi_project"@,
            r.site_name@ == "nibi_site"@,
            is_default_layout(r.dir_conf),
    {
        Config {
            project_name: default_project_name(),
            site_name: default_site_name(),
            dir_conf: DirConf::default(),
        }
    }
}

impl Config {
    /// A configuration with the given names and the default layout.
    pub fn new(project_name: String, site_name: String) -> (r: Config)
        ensures
            r.project_name == project_name,
            r.site_name == site_name,
            is_default_layout(r.dir_conf),
    {
        Config { project_name, site_name, dir_conf: DirConf::default() }
    }

    /// The configuration with another project name.
    pub fn project_name(self, proj_name: String) -> (r: Config)
        ensures
            r == (Config { project_name: proj_name, ..self }),
    {
        Config { project_name: proj_name, ..self }
    }

    /// The configuration with another site name.
    pub fn site_title(self, site_name: String) -> (r: Config)
        ensures
            r == (Config { site_name: site_name, ..self }),
    {
        Config { site_name, ..self }
    }

    pub fn get_dir_conf(&self) -> (r: &DirConf)
        ensures
            *r == self.dir_conf,
    {
        &self.dir_conf
    }
}

/// Whether `char::is_alphanumeric` holds of `c`.
pub uninterp spec fn is_alnum(c: char) -> bool;

/// Relies on `char::is_alphanumeric` (Unicode `Alphabetic` or `Numeric`);
/// ASCII letters and digits are documented members.
#[verifier::external_body]
fn is_alphanumeric(c: char) -> (r: bool)
    ensures
        r == is_alnum(c),
        ('a' <= c <= 'z' || 'A' <= c <= 'Z' || '0' <= c <= '9') ==> r,
{
    c.is_alphanumeric()
}

/// Whether a name keeps the character `c`: a letter or digit, or one of
/// `- _ @ # + . :`, and no whitespace.
pub open spec fn keeps_char(c: char) -> bool {
    !is_white(c) && (is_alnum(c) || c == '-' || c == '_' || c == '@' || c == '#' || c == '+'
        || c == '.' || c == ':')
}

/// The characters of `s` that a name keeps, in order.
pub open spec fn kept_chars(s: Seq<char>) -> Seq<char>
    decreases s.len(),
{
    if s.len() == 0 {
        seq![]
    } else if keeps_char(s.last()) {
        kept_chars(s.drop_last()).push(s.last())
    } else {
        kept_chars(s.drop_last())
    }
}

/// A recipe name made safe: trimmed, with only the characters a name keeps.
pub open spec fn normed_name(s: Seq<char>) -> Seq<char> {
    kept_chars(trim(s))
}

/// The characters of `s` that a name keeps.
fn keep_name_chars(s: &Vec<char>) -> (r: Vec<char>)
    ensures
        r@ == kept_chars(s@),
{
    let mut r: Vec<char> = Vec::new();
    let mut k: usize = 0;
    while k < s.len()
        invariant
            k <= s.len(),
            r@ == kept_chars(s@.subrange(0, k as int)),
        decreases s.len() - k,
    {
        let c = s[k];
        proof {
            assert(s@.subrange(0, k + 1).drop_last() =~= s@.subrange(0, k as int));
        }
        if !is_whitespace(c) && (is_alphanumeric(c) || c == '-' || c == '_' || c == '@' || c
            == '#' || c == '+' || c == '.' || c == ':') {
            r.push(c);
        }
        k = k + 1;
    }
    assert(s@.subrange(0, s@.len() as int) =~= s@);
    r
}

/// A recipe name made safe: trimmed, with only letters, digits and
/// `- _ @ # + . :` kept.
pub fn norm_recipe_name(recipe_name: String) -> (r: String)
    ensures
        r@ == normed_name(recipe_name@),
{
    string_from_chars(&keep_name_chars(&trim_chars(&chars_of(recipe_name.as_str()))))
}

/// The pieces of `s` between slashes, in order.
pub open spec fn split_slashes(s: Seq<char>) -> Seq<Seq<char>>
    decreases s.len(),
{
    if s.len() == 0 {
        seq![seq![]]
    } else {
        let r = split_slashes(s.drop_last());
        if s.last() == '/' {
            r.push(seq![])
        } else {
            r.update(r.len() - 1, r.last().push(s.last()))
        }
    }
}

/// The normalised pieces, joined without separator; empty ones drop out.
pub open spec fn join_normed(pieces: Seq<Seq<char>>) -> Seq<char>
    decreases pieces.len(),
{
    if pieces.len() == 0 {
        seq![]
    } else {
        join_normed(pieces.drop_last()) + normed_name(pieces.last())
    }
}

/// A pack name made safe: each piece between slashes is normalised as a
/// recipe name, and the pieces are joined.
pub open spec fn normed_pack_name(s: Seq<char>) -> Seq<char> {
    join_normed(split_slashes(s))
}

proof fn lemma_split_slashes_nonempty(s: Seq<char>)
    ensures
        split_slashes(s).len() >= 1,
    decreases s.len(),
{
    if s.len() > 0 {
        lemma_split_slashes_nonempty(s.drop_last());
    }
}

/// Appends `b` to `a`.
fn append_chars(a: &mut Vec<char>, b: &Vec<char>)
    ensures
        final(a)@ == old(a)@ + b@,
{
    let mut k: usize = 0;
    let ghost a0 = a@;
    while k < b.len()
        invariant
            k <= b.len(),
            a@ == a0 + b@.subrange(0, k as int),
        decreases b.len() - k,
    {
        a.push(b[k]);
        assert(a0 + b@.subrange(0, k + 1) =~= a0 + b@.subrange(0, k as int) + seq![b@[k as int]]);
        k = k + 1;
    }
    assert(b@.subrange(0, b@.len() as int) =~= b@);
}

/// A pack name made safe: every piece between slashes is trimmed and keeps
/// only letters, digits and `- _ @ # + . :`; the pieces are joined.
pub fn norm_pack_name(set_name: String) -> (r: String)
    ensures
        r@ == normed_pack_name(set_name@),
{
    let chars = chars_of(set_name.as_str());
    let mut out: Vec<char> = Vec::new();
    let mut piece: Vec<char> = Vec::new();
    let mut k: usize = 0;
    while k < chars.len()
        invariant
            k <= chars.len(),
            split_slashes(chars@.subrange(0, k as int)).len() >= 1,
            out@ == join_normed(split_slashes(chars@.subrange(0, k as int)).drop_last()),
            piece@ == split_slashes(chars@.subrange(0, k as int)).last(),
        decreases chars.len() - k,
    {
        let ghost before = chars@.subrange(0, k as int);
        let ghost after = chars@.subrange(0, k + 1);
        proof {
            assert(after.drop_last() =~= before);
            lemma_split_slashes_nonempty(before);
        }
        let c = chars[k];
        if c == '/' {
            let normed = keep_name_chars(&trim_chars(&piece));
            append_chars(&mut out, &normed);
            piece = Vec::new();
            proof {
                let sp = split_slashes(before);
                assert(split_slashes(after).drop_last() =~= sp);
                assert(sp =~= sp.drop_last().push(sp.last()));
                assert(piece@ =~= split_slashes(after).last());
            }
        } else {
            piece.push(c);
            proof {
                assert(split_slashes(after).drop_last() =~= split_slashes(before).drop_last());
            }
        }
        k = k + 1;
    }
    proof {
        assert(chars@.subrange(0, chars@.len() as int) =~= chars@);
        let sp = split_slashes(chars@);
        assert(sp =~= sp.drop_last().push(sp.last()));
    }
    let normed = keep_name_chars(&trim_chars(&piece));
    append_chars(&mut out, &normed);
    string_from_chars(&out)
}

/// One author of a template pack.
#[derive(Debug)]
pub struct Author {
    pub name: String,
    pub contact: BTreeMap<String, String>,
}

/// The description of a template pack.
#[derive(Debug)]
pub struct PackInfo {
    pub name: String,
    pub authors: Vec<Author>,
    pub description: String,
    pub license: String,
    pub version: String,
}

impl PackInfo {
    /// A pack description with only a name.
    pub fn new(name: String) -> (r: PackInfo)
        ensures
            r.name == name,
            r.authors@.len() == 0,
            r.description@.len() == 0,
            r.license@.len() == 0,
            r.version@.len() == 0,
    {
        PackInfo {
            name,
            authors: Vec::new(),
            description: String::new(),
            license: String::new(),
            version: String::new(),
        }
    }
}

/// One string or a list of strings.
#[derive(Debug, Clone, PartialEq, Eq)]
pub struct StrValOrArray(pub Vec<String>);

impl StrValOrArray {
    pub fn inner(&self) -> (r: &Vec<String>)
        ensures
            *r == self.0,
    {
        &self.0
    }

    pub fn take_inner(self) -> (r: Vec<String>)
        ensures
            r == self.0,
    {
        self.0
    }
}

/// Values that a recipe sets over its pack's defaults.
#[derive(Debug)]
pub struct Overrides {
    pub igata_table: BTreeMap<String, String>,
    pub values: BTreeMap<String, String>,
}

/// The settings of a recipe: the packs it uses and what it overrides.
#[derive(Debug)]
pub struct RecipeSettings {
    pub pack: StrValOrArray,
    pub overrides: Overrides,
}

impl RecipeSettings {
    pub fn get_pack(&self) -> (r: &Vec<String>)
        ensures
            *r == self.pack.0,
    {
        self.pack.inner()
    }

    pub fn take_pack(self) -> (r: Vec<String>)
        ensures
            r == self.pack.0,
    {
        self.pack.take_inner()
    }

    pub fn get_overrides(&self) -> (r: &Overrides)
        ensures
            *r == self.overrides,
    {
        &self.overrides
    }

    pub fn take_overrides(self) -> (r: Overrides)
        ensures
            r == self.overrides,
    {
        self.overrides
    }

    pub fn take_fields(self) -> (r: (Vec<String>, Overrides))
        ensures
            r.0 == self.pack.0,
            r.1 == self.overrides,
    {
        (self.pack.take_inner(), self.overrides)
    }
}

/// Settings of a project's initialisation, as given on the command line.
#[derive(Debug, Clone, PartialEq, Eq)]
pub struct InitConfig {
    pub dir_path: String,
    pub yes_no: Option<bool>,
    pub ingots_dir_path: Option<String>,
    pub project_name: Option<String>,
    pub site_name: Option<String>,
    pub skip_prompt: bool,
    pub config_file_type: Option<FileType>,
    pub force: bool,
    pub vcs: Option<bool>,
}

impl InitConfig {
    /// Whether the user is to be asked: unless asked not to, or while a
    /// setting is missing.
    pub fn should_prompt(&self) -> (r: bool)
        ensures
            r == (!self.skip_prompt || self.project_name is None || self.site_name is None
                || self.config_file_type is None || self.ingots_dir_path is None),
    {
        !self.skip_prompt || self.project_name.is_none() || self.site_name.is_none()
            || self.config_file_type.is_none() || self.ingots_dir_path.is_none()
    }

    /// The answer to confirmations: yes where forced, else as given.
    pub fn get_force_yes_no(&self) -> (r: Option<bool>)
        ensures
            r == if self.force {
                Some(true)
            } else {
                self.yes_no
            },
    {
        if self.force {
            Some(true)
        } else {
            self.yes_no
        }
    }

    /// Whether to set up version control; yes unless said otherwise.
    pub fn vcs_init(&self) -> (r: bool)
        ensures
            r == match self.vcs {
                Some(v) => v,
                None => true,
            },
    {
        match self.vcs {
            Some(v) => v,
            None => true,
        }
    }
}

/// The last component of path text `p`, as `Path::file_name` gives it, where
/// there is one and it is valid text.
pub uninterp spec fn path_file_name(p: Seq<char>) -> Option<Seq<char>>;

/// Relies on `Path::file_name` (the final component of a path, none where the
/// path ends in `..`) and `OsStr::to_str`.
#[verifier::external_body]
fn file_name(path: &str) -> (r: Option<String>)
    ensures
        r matches Some(n) ==> path_file_name(path@) == Some(n@),
        r is None ==> path_file_name(path@) is None,
{
    match std::path::Path::new(path).file_name() {
        Some(n) => match n.to_str() {
            Some(t) => Some(t.to_string()),
            None => None,
        },
        None => None,
    }
}

/// The project name that initialisation settings give: the one given, else
/// the name of the project directory, else the default name.
pub open spec fn init_project_name(init: InitConfig) -> Seq<char> {
    match init.project_name {
        Some(pn) => pn@,
        None => match path_file_name(init.dir_path@) {
            Some(n) => n,
            None => "nibi_project"@,
        },
    }
}

/// The configuration that initialisation settings give: the project name as
/// given or taken from the directory, the site name as given or the project
/// name, and the default layout.
pub fn get_config_from_init_config(init_config: &InitConfig) -> (r: Config)
    ensures
        r.project_name@ == init_project_name(*init_config),
        r.site_name@ == match init_config.site_name {
            Some(sn) => sn@,
            None => init_project_name(*init_config),
        },
        is_default_layout(r.dir_conf),
{
    let project_name = match &init_config.project_name {
        Some(pn) => pn.clone(),
        None => match file_name(init_config.dir_path.as_str()) {
            Some(n) => n,
            None => default_project_name(),
        },
    };
    let site_name = match &init_config.site_name {
        Some(sn) => sn.clone(),
        None => project_name.clone(),
    };
    Config::new(project_name, site_name)
}

} // verus!
