//! Backup profile specifications and build-artifact detection.
pub mod restore;
pub mod runner;
pub mod appdata;
pub mod assemble;

use vstd::prelude::*;
use crate::text::{chars_of, eq_str, last_piece, last_piece_vec, owned, starts_with, starts_with_str};

verus! {

/// A single source location on the device to back up.
#[derive(Debug, Clone, PartialEq, Eq)]
pub struct SourceSpec {
    pub device_path: String,
    pub alt_paths: Vec<String>,
    pub recursive: bool,
    pub extensions: Option<Vec<String>>,
}

/// A named backup profile: a prioritized collection of sources.
#[derive(Debug, Clone, PartialEq, Eq)]
pub struct ProfileSpec {
    pub name: String,
    pub priority: u8,
    pub requires_root: bool,
    pub sources: Vec<SourceSpec>,
}

/// Views of a vector of strings.
pub open spec fn texts(v: Seq<String>) -> Seq<Seq<char>> {
    v.map_values(|s: String| s@)
}

/// Mathematical model of a [`SourceSpec`].
pub struct SourceModel {
    pub device_path: Seq<char>,
    pub alt_paths: Seq<Seq<char>>,
    pub recursive: bool,
    pub extensions: Option<Seq<Seq<char>>>,
}

/// Mathematical model of a [`ProfileSpec`].
pub struct ProfileModel {
    pub name: Seq<char>,
    pub priority: u8,
    pub requires_root: bool,
    pub sources: Seq<SourceModel>,
}

impl View for SourceSpec {
    type V = SourceModel;

    open spec fn view(&self) -> SourceModel {
        SourceModel {
            device_path: self.device_path@,
            alt_paths: texts(self.alt_paths@),
            recursive: self.recursive,
            extensions: match self.extensions {
                Some(e) => Some(texts(e@)),
                None => None,
            },
        }
    }
}

impl View for ProfileSpec {
    type V = ProfileModel;

    open spec fn view(&self) -> ProfileModel {
        ProfileModel {
            name: self.name@,
            priority: self.priority,
            requires_root: self.requires_root,
            sources: self.sources@.map_values(|s: SourceSpec| s@),
        }
    }
}

pub open spec fn whatsapp_model() -> ProfileModel {
    ProfileModel {
        name: "whatsapp"@,
        priority: 0,
        requires_root: true,
        sources: seq![
            SourceModel {
                device_path: "/sdcard/Android/media/com.whatsapp"@,
                alt_paths: seq!["/sdcard/WhatsApp"@],
                recursive: true,
                extensions: None,
            },
        ],
    }
}

pub open spec fn dcim_model() -> ProfileModel {
    ProfileModel {
        name: "dcim"@,
        priority: 1,
        requires_root: false,
        sources: seq![
            SourceModel {
                device_path: "/sdcard/DCIM"@,
                alt_paths: seq![],
                recursive: true,
                extensions: Some(
                    seq![
                        "jpg"@,
                        "jpeg"@,
                        "png"@,
                        "heic"@,
                        "mp4"@,
                        "mov"@,
                        "webm"@,
                        "dng"@,
                    ],
                ),
            },
        ],
    }
}

/// The builtin profiles, sorted by priority.
pub open spec fn builtin_models() -> Seq<ProfileModel> {
    seq![whatsapp_model(), dcim_model()]
}

pub open spec fn profile_models(v: Seq<ProfileSpec>) -> Seq<ProfileModel> {
    v.map_values(|p: ProfileSpec| p@)
}

/// Returns the builtin profiles (whatsapp, dcim), sorted by priority.
pub fn builtin_profiles() -> (r: Vec<ProfileSpec>)
    ensures
        profile_models(r@) == builtin_models(),
{
    let mut wa_alt: Vec<String> = Vec::new();
    wa_alt.push(owned("/sdcard/WhatsApp"));
    let mut wa_sources: Vec<SourceSpec> = Vec::new();
    wa_sources.push(
        SourceSpec {
            device_path: owned("/sdcard/Android/media/com.whatsapp"),
            alt_paths: wa_alt,
            recursive: true,
            extensions: None,
        },
    );
    let mut exts: Vec<String> = Vec::new();
    exts.push(owned("jpg"));
    exts.push(owned("jpeg"));
    exts.push(owned("png"));
    exts.push(owned("heic"));
    exts.push(owned("mp4"));
    exts.push(owned("mov"));
    exts.push(owned("webm"));
    exts.push(owned("dng"));
    let mut dcim_sources: Vec<SourceSpec> = Vec::new();
    dcim_sources.push(
        SourceSpec {
            device_path: owned("/sdcard/DCIM"),
            alt_paths: Vec::new(),
            recursive: true,
            extensions: Some(exts),
        },
    );
    let mut r: Vec<ProfileSpec> = Vec::new();
    r.push(
        ProfileSpec {
            name: owned("whatsapp"),
            priority: 0,
            requires_root: true,
            sources: wa_sources,
        },
    );
    r.push(
        ProfileSpec {
            name: owned("dcim"),
            priority: 1,
            requires_root: false,
            sources: dcim_sources,
        },
    );
    proof {
        assert(texts(wa_alt@) =~= seq!["/sdcard/WhatsApp"@]);
        assert(texts(exts@) =~= seq![
            "jpg"@,
            "jpeg"@,
            "png"@,
            "heic"@,
            "mp4"@,
            "mov"@,
            "webm"@,
            "dng"@,
        ]);
        assert(texts(Seq::<String>::empty()) =~= Seq::<Seq<char>>::empty());
        assert(r@[0]@.sources =~= whatsapp_model().sources);
        assert(r@[1]@.sources =~= dcim_model().sources);
        assert(profile_models(r@) =~= builtin_models());
    }
    r
}

/// The first builtin profile called `name`.
pub open spec fn spec_find_profile(name: Seq<char>) -> Option<ProfileModel> {
    if name == "whatsapp"@ {
        Some(whatsapp_model())
    } else if name == "dcim"@ {
        Some(dcim_model())
    } else {
        None
    }
}

/// The builtin profiles, found by name: `whatsapp` (first, needs root,
/// every file of WhatsApp's media directory) and `dcim` (second, the whole
/// camera directory, keeping only jpg, jpeg, png, heic, mp4, mov, webm and
/// dng files); any other name finds none.
pub proof fn lemma_builtin_profiles(name: Seq<char>)
    ensures
        spec_find_profile(name) is Some <==> (name == "whatsapp"@ || name == "dcim"@),
        spec_find_profile(name) matches Some(p) ==> p.name == name,
        builtin_models().len() == 2,
        builtin_models()[0].name == "whatsapp"@,
        builtin_models()[1].name == "dcim"@,
        builtin_models()[0].priority < builtin_models()[1].priority,
        builtin_models()[0].requires_root,
        builtin_models()[0].sources.len() == 1,
        builtin_models()[0].sources[0].device_path == "/sdcard/Android/media/com.whatsapp"@,
        builtin_models()[0].sources[0].alt_paths == seq!["/sdcard/WhatsApp"@],
        builtin_models()[0].sources[0].recursive,
        builtin_models()[0].sources[0].extensions is None,
        !builtin_models()[1].requires_root,
        builtin_models()[1].sources.len() == 1,
        builtin_models()[1].sources[0].device_path == "/sdcard/DCIM"@,
        builtin_models()[1].sources[0].recursive,
        builtin_models()[1].sources[0].extensions == Some(
            seq!["jpg"@, "jpeg"@, "png"@, "heic"@, "mp4"@, "mov"@, "webm"@, "dng"@],
        ),
{
}

/// Clone-free lookup among builtin profiles by name.
pub fn find_profile(name: &str) -> (r: Option<ProfileSpec>)
    ensures
        match r {
            Some(p) => spec_find_profile(name@) == Some(p@),
            None => spec_find_profile(name@) is None,
        },
{
    let mut all = builtin_profiles();
    proof {
        assert(profile_models(all@).len() == all@.len());
        assert(profile_models(all@)[0] == all@[0]@);
        assert(profile_models(all@)[1] == all@[1]@);
    }
    let n = chars_of(name);
    let ghost before = all@;
    let first = all.remove(0);
    assert(all@[0] == before[1]);
    if eq_str(&n, first.name.as_str()) {
        return Some(first);
    }
    let second = all.remove(0);
    if eq_str(&n, second.name.as_str()) {
        return Some(second);
    }
    None
}

/// Names that cargo/build systems leave behind.
pub open spec fn is_junk_name(s: Seq<char>) -> bool {
    s == ".rustc_info.json"@ || s == ".cargo-lock"@ || s == ".cargo-build-lock"@ || s
        == ".cargo-artifact-lock"@ || s == "target"@
}

/// Filename extensions that cargo/build systems leave behind.
pub open spec fn is_junk_extension(s: Seq<char>) -> bool {
    s == "o"@ || s == "rlib"@ || s == "rmeta"@
}

pub open spec fn is_lower_hex_digit(c: char) -> bool {
    ('0' <= c && c <= '9') || ('a' <= c && c <= 'f')
}

/// A cargo fingerprint: exactly 40 lowercase hexadecimal characters, no dot.
pub open spec fn is_hex_fingerprint(s: Seq<char>) -> bool {
    s.len() == 40 && forall|i: int| 0 <= i < s.len() ==> is_lower_hex_digit(#[trigger] s[i])
}

/// Whether `name` is a build artifact that should never be pulled as backup data.
pub open spec fn spec_is_build_artifact(name: Seq<char>) -> bool {
    ||| is_junk_name(name)
    ||| is_junk_extension(last_piece(name, '.'))
    ||| is_hex_fingerprint(name)
    ||| starts_with(name, "run-build-script-"@)
    ||| name == "rustix_test_can_compile"@
}

fn is_hex_fingerprint_exec(v: &Vec<char>) -> (b: bool)
    ensures
        b == is_hex_fingerprint(v@),
{
    if v.len() != 40 {
        return false;
    }
    let mut i: usize = 0;
    while i < v.len()
        invariant
            i <= v@.len(),
            forall|k: int| 0 <= k < i ==> is_lower_hex_digit(#[trigger] v@[k]),
        decreases v@.len() - i,
    {
        let c = v[i];
        if !(('0' <= c && c <= '9') || ('a' <= c && c <= 'f')) {
            return false;
        }
        i = i + 1;
    }
    true
}

/// Returns `true` when `name` is almost certainly a build artifact and should
/// never be pulled as "backup data".
///
/// Detection is deliberately conservative: it only catches known cargo/build
/// patterns plus 40-char lowercase hex fingerprints.
pub fn is_build_artifact(name: &str) -> (b: bool)
    ensures
        b == spec_is_build_artifact(name@),
{
    let v = chars_of(name);
    if eq_str(&v, ".rustc_info.json") || eq_str(&v, ".cargo-lock") || eq_str(
        &v,
        ".cargo-build-lock",
    ) || eq_str(&v, ".cargo-artifact-lock") || eq_str(&v, "target") {
        return true;
    }
    let ext = last_piece_vec(&v, '.');
    if eq_str(&ext, "o") || eq_str(&ext, "rlib") || eq_str(&ext, "rmeta") {
        return true;
    }
    // A fingerprint of lowercase hex digits holds no dot by construction.
    if is_hex_fingerprint_exec(&v) {
        return true;
    }
    starts_with_str(&v, "run-build-script-") || eq_str(&v, "rustix_test_can_compile")
}

/// Whether every name in `names` is a builtin profile.
pub open spec fn all_known(names: Seq<String>) -> bool {
    forall|i: int| 0 <= i < names.len() ==> spec_find_profile((#[trigger] names[i])@) is Some
}

/// The profiles that a run works on: all builtin profiles when no names are
/// given, else the named ones in the given order. A name that is no builtin
/// profile makes the whole request fail with the first such name.
pub fn resolve_profiles(names: Option<Vec<String>>) -> (r: Result<Vec<ProfileSpec>, String>)
    ensures
        names is None ==> (r matches Ok(v) && profile_models(v@) == builtin_models()),
        names matches Some(list) ==> (r is Ok <==> all_known(list@)),
        names matches Some(list) ==> (r matches Ok(v) ==> (v@.len() == list@.len() && forall|i: int|
            0 <= i < list@.len() ==> spec_find_profile(list@[i]@) == Some(
                (#[trigger] v@[i])@,
            ))),
        names matches Some(list) ==> (r matches Err(bad) ==> exists|k: int|
            0 <= k < list@.len() && (#[trigger] list@[k])@ == bad@ && spec_find_profile(bad@) is None
                && all_known(list@.take(k))),
{
    let ghost given = names;
    match names {
        None => Ok(builtin_profiles()),
        Some(list) => {
            let mut specs: Vec<ProfileSpec> = Vec::new();
            let mut i: usize = 0;
            while i < list.len()
                invariant
                    given == Some(list),
                    given == names,
                    i <= list@.len(),
                    specs@.len() == i,
                    all_known(list@.take(i as int)),
                    forall|j: int|
                        0 <= j < i ==> spec_find_profile(list@[j]@) == Some((#[trigger] specs@[j])@),
                decreases list@.len() - i,
            {
                match find_profile(list[i].as_str()) {
                    Some(p) => {
                        specs.push(p);
                        assert forall|j: int| 0 <= j < i + 1 implies spec_find_profile(
                            (#[trigger] list@.take(i + 1)[j])@,
                        ) is Some by {
                            if j < i {
                                assert(list@.take(i + 1)[j] == list@.take(i as int)[j]);
                            }
                        }
                        i = i + 1;
                    },
                    None => {
                        let bad = list[i].clone();
                        assert(list@[i as int]@ == bad@);
                        assert(!all_known(list@));
                        return Err(bad);
                    },
                }
            }
            assert(list@.take(i as int) =~= list@);
            Ok(specs)
        },
    }
}

} // verus!
