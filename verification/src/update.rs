//! What a build says of itself, and the checks an update passes before it replaces the
//! executable: the manifest names a full commit and a well-formed asset for this platform, and
//! the downloaded bytes have the size and SHA-256 digest the manifest promised.
use vstd::prelude::*;

use crate::desktop::is_hex;
use crate::music::resolve::{sha256, sha256_of};
use crate::text::same_text;
use vstd::string::StringSliceAdditionalSpecFns;
use vstd::utf8::encode_utf8;

verus! {

/// A build's package version, source commit and platform.
#[derive(Clone, Debug, PartialEq, Eq)]
pub struct Version {
    pub version: String,
    pub commit: String,
    pub platform: String,
}

/// The largest executable an update downloads: 100 MiB.
pub const MAX_BINARY: u64 = 104857600;

/// One platform's asset in an update manifest.
#[derive(Clone, Debug, PartialEq, Eq)]
pub struct Target {
    pub asset: String,
    pub sha256: String,
    pub size: u64,
}

/// An update manifest: its schema, the commit it was built from, and each platform's asset.
#[derive(Clone, Debug, PartialEq, Eq)]
pub struct Manifest {
    pub schema: u32,
    pub commit: String,
    pub targets: Vec<(String, Target)>,
}

/// `t` is `n` hex digits.
pub open spec fn hex_text(t: Seq<u8>, n: nat) -> bool {
    &&& t.len() == n
    &&& forall|i: int| 0 <= i < t.len() ==> is_hex(#[trigger] t[i])
}

/// The manifest's own fields are sound: schema 1 and a full forty-digit commit.
pub open spec fn manifest_sound(m: Manifest) -> bool {
    m.schema == 1 && hex_text(encode_utf8(m.commit@), 40)
}

/// The first entry for `platform`.
pub open spec fn entry_for(targets: Seq<(String, Target)>, platform: Seq<char>, n: int) -> Option<int>
    decreases n,
{
    if n <= 0 {
        None
    } else {
        match entry_for(targets, platform, n - 1) {
            Some(i) => Some(i),
            None => if targets[n - 1].0@ == platform { Some(n - 1) } else { None },
        }
    }
}

pub open spec fn find_entry(targets: Seq<(String, Target)>, platform: Seq<char>) -> Option<int> {
    entry_for(targets, platform, targets.len() as int)
}

/// The executable's file extension on `platform`.
pub open spec fn extension(platform: Seq<char>) -> Seq<char> {
    if platform.len() >= 7 && platform.take(7) == "windows"@ {
        "exe"@
    } else {
        "bin"@
    }
}

pub open spec fn asset_name(platform: Seq<char>) -> Seq<char> {
    "phasecraft-update-"@ + platform + "."@ + extension(platform)
}

/// An asset entry is sound: named for its platform, a size within the limit, a full digest.
pub open spec fn target_sound(t: Target, platform: Seq<char>) -> bool {
    &&& t.asset@ == asset_name(platform)
    &&& 0 < t.size <= MAX_BINARY
    &&& hex_text(encode_utf8(t.sha256@), 64)
}

/// The lowercase hex digit of `v`.
pub open spec fn hex_digit(v: u8) -> u8 {
    if v < 10 { (0x30 + v) as u8 } else { (0x57 + v) as u8 }
}

/// The lowercase hex rendering of `bytes`, two digits a byte.
pub open spec fn hex_of(bytes: Seq<u8>) -> Seq<u8> {
    Seq::new(2 * bytes.len(), |i: int| if i % 2 == 0 { hex_digit(bytes[i / 2] / 16) } else { hex_digit(bytes[i / 2] % 16) })
}

/// ASCII lowercase of one byte.
pub open spec fn ascii_lower(b: u8) -> u8 {
    if 0x41 <= b <= 0x5a { (b + 32) as u8 } else { b }
}

/// `expected`, read without regard to ASCII case, is the hex digest `digest`.
pub open spec fn digest_matches(expected: Seq<u8>, digest: Seq<u8>) -> bool {
    &&& expected.len() == digest.len()
    &&& forall|i: int| 0 <= i < expected.len() ==> ascii_lower(#[trigger] expected[i]) == digest[i]
}

pub open spec fn malformed() -> Seq<char> {
    "unsupported or malformed update manifest"@
}

pub open spec fn invalid_asset() -> Seq<char> {
    "invalid update asset metadata"@
}

pub open spec fn mismatch() -> Seq<char> {
    "update checksum/size mismatch; executable unchanged. The rolling release may be changing; retry shortly"@
}

fn all_hex(b: &[u8], n: usize) -> (r: bool)
    ensures
        r == hex_text(b@, n as nat),
{
    if b.len() != n {
        return false;
    }
    let mut i: usize = 0;
    while i < b.len()
        invariant
            i <= b@.len(),
            forall|j: int| 0 <= j < i ==> is_hex(#[trigger] b@[j]),
        decreases b@.len() - i,
    {
        let c = b[i];
        if !((0x30 <= c && c <= 0x39) || (0x41 <= c && c <= 0x46) || (0x61 <= c && c <= 0x66)) {
            return false;
        }
        i += 1;
    }
    true
}

fn windows_platform(platform: &str) -> (r: bool)
    ensures
        r == (platform@.len() >= 7 && platform@.take(7) == "windows"@),
{
    let w = "windows";
    proof {
        reveal_strlit("windows");
    }
    if platform.unicode_len() < 7 {
        return false;
    }
    let mut i: usize = 0;
    while i < 7
        invariant
            i <= 7,
            platform@.len() >= 7,
            w@ == "windows"@,
            w@.len() == 7,
            forall|j: int| 0 <= j < i ==> platform@[j] == #[trigger] w@[j],
        decreases 7 - i,
    {
        if platform.get_char(i) != w.get_char(i) {
            proof {
                assert(platform@.take(7)[i as int] != w@[i as int]);
            }
            return false;
        }
        i += 1;
    }
    proof {
        assert(platform@.take(7) =~= w@);
    }
    true
}

impl Manifest {
    /// This platform's asset, once the manifest and the entry are checked.
    pub fn target(&self, platform: &str) -> (r: Result<&Target, String>)
        ensures
            !manifest_sound(*self) ==> (r matches Err(e) && e@ == malformed()),
            manifest_sound(*self) && find_entry(self.targets@, platform@) is None ==>
                (r matches Err(e) && e@ == "no update for platform "@ + platform@),
            manifest_sound(*self) ==> (find_entry(self.targets@, platform@) matches Some(i) ==> {
                let t = self.targets@[i].1;
                if target_sound(t, platform@) {
                    r matches Ok(x) && *x == t
                } else {
                    r matches Err(e) && e@ == invalid_asset()
                }
            }),
    {
        proof {
            reveal_strlit("unsupported or malformed update manifest");
            reveal_strlit("invalid update asset metadata");
            reveal_strlit("no update for platform ");
            reveal_strlit("phasecraft-update-");
            reveal_strlit(".");
            reveal_strlit("exe");
            reveal_strlit("bin");
        }
        if self.schema != 1 || !all_hex(self.commit.as_str().as_bytes(), 40) {
            return Err(String::from_str("unsupported or malformed update manifest"));
        }
        let mut i: usize = 0;
        let mut found: Option<usize> = None;
        while i < self.targets.len()
            invariant
                i <= self.targets@.len(),
                found is None ==> entry_for(self.targets@, platform@, i as int) is None,
                found matches Some(j) ==> entry_for(self.targets@, platform@, i as int) == Some(j as int)
                    && j < self.targets@.len(),
            decreases self.targets@.len() - i,
        {
            if found.is_none() && same_text(self.targets[i].0.as_str(), platform) {
                found = Some(i);
            }
            i += 1;
        }
        let j = match found {
            None => {
                let mut m = String::from_str("no update for platform ");
                m.append(platform);
                return Err(m);
            },
            Some(j) => j,
        };
        let target = &self.targets[j].1;
        let ext = if windows_platform(platform) { "exe" } else { "bin" };
        let mut name = String::from_str("phasecraft-update-");
        name.append(platform);
        name.append(".");
        name.append(ext);
        if !same_text(target.asset.as_str(), name.as_str()) || target.size == 0 || target.size > MAX_BINARY
            || !all_hex(target.sha256.as_str().as_bytes(), 64) {
            return Err(String::from_str("invalid update asset metadata"));
        }
        Ok(target)
    }
}

/// The downloaded bytes are the asset the manifest promised: its size, and its SHA-256 digest,
/// which the manifest writes in hex of either case.
pub fn verify(bytes: &[u8], target: &Target) -> (r: Result<(), String>)
    ensures
        r is Ok <==> bytes@.len() == target.size
            && digest_matches(encode_utf8(target.sha256@), hex_of(sha256_of(bytes@))),
        r matches Err(e) ==> e@ == mismatch(),
{
    if bytes.len() as u64 != target.size {
        return Err(mismatch_error());
    }
    let digest = sha256(bytes);
    let expected = target.sha256.as_str().as_bytes();
    if expected.len() != 64 {
        return Err(mismatch_error());
    }
    let mut i: usize = 0;
    while i < 32
        invariant
            i <= 32,
            digest@.len() == 32,
            expected@.len() == 64,
            digest@ == sha256_of(bytes@),
            expected@ == encode_utf8(target.sha256@),
            bytes@.len() == target.size,
            forall|j: int| 0 <= j < 2 * i ==> ascii_lower(#[trigger] expected@[j]) == hex_of(digest@)[j],
        decreases 32 - i,
    {
        let v = digest[i];
        let hi = v / 16;
        let lo = v % 16;
        let h: u8 = if hi < 10 { 0x30 + hi } else { 0x57 + hi };
        let l: u8 = if lo < 10 { 0x30 + lo } else { 0x57 + lo };
        let a = expected[2 * i];
        let b = expected[2 * i + 1];
        let la: u8 = if 0x41 <= a && a <= 0x5a { a + 32 } else { a };
        let lb: u8 = if 0x41 <= b && b <= 0x5a { b + 32 } else { b };
        proof {
            assert(hex_of(digest@)[2 * i] == h);
            assert(hex_of(digest@)[2 * i + 1] == l);
        }
        if la != h || lb != l {
            proof {
                if la != h {
                    assert(ascii_lower(expected@[2 * i as int]) != hex_of(digest@)[2 * i as int]);
                } else {
                    assert(ascii_lower(expected@[2 * i + 1]) != hex_of(digest@)[2 * i + 1]);
                }
            }
            return Err(mismatch_error());
        }
        i += 1;
    }
    proof {
        assert(hex_of(digest@).len() == 64);
    }
    Ok(())
}

fn mismatch_error() -> (r: String)
    ensures
        r@ == mismatch(),
{
    proof {
        reveal_strlit("update checksum/size mismatch; executable unchanged. The rolling release may be changing; retry shortly");
    }
    String::from_str("update checksum/size mismatch; executable unchanged. The rolling release may be changing; retry shortly")
}

/// The release platform a build targets, by operating system and architecture.
pub open spec fn platform_of(os: Seq<char>, arch: Seq<char>) -> Seq<char> {
    if os == "windows"@ && arch == "x86_64"@ {
        "windows-x64"@
    } else if os == "linux"@ && arch == "x86_64"@ {
        "linux-x64"@
    } else if os == "macos"@ && arch == "aarch64"@ {
        "macos-arm64"@
    } else if os == "macos"@ && arch == "x86_64"@ {
        "macos-x64"@
    } else {
        "unsupported"@
    }
}

/// The release platform of a build for `os` on `arch`; `unsupported` where no release is made.
pub fn platform(os: &str, arch: &str) -> (r: &'static str)
    ensures
        r@ == platform_of(os@, arch@),
{
    proof {
        reveal_strlit("windows");
        reveal_strlit("linux");
        reveal_strlit("macos");
        reveal_strlit("x86_64");
        reveal_strlit("aarch64");
        reveal_strlit("windows-x64");
        reveal_strlit("linux-x64");
        reveal_strlit("macos-arm64");
        reveal_strlit("macos-x64");
        reveal_strlit("unsupported");
    }
    let x86 = same_text(arch, "x86_64");
    if same_text(os, "windows") && x86 {
        "windows-x64"
    } else if same_text(os, "linux") && x86 {
        "linux-x64"
    } else if same_text(os, "macos") && same_text(arch, "aarch64") {
        "macos-arm64"
    } else if same_text(os, "macos") && x86 {
        "macos-x64"
    } else {
        "unsupported"
    }
}

/// A build's commit is either `unknown` or a full forty-digit hex id.
pub fn build_commit_ok(commit: &str) -> (r: bool)
    ensures
        r == (commit@ == "unknown"@ || hex_text(commit.spec_bytes(), 40)),
{
    proof {
        reveal_strlit("unknown");
    }
    same_text(commit, "unknown") || all_hex(commit.as_bytes(), 40)
}

/// What an update does once the manifest is read.
#[derive(Clone, Copy, Debug, PartialEq, Eq, Structural)]
pub enum UpdateStep {
    /// The installed commit is the release's, and no reinstall was asked for.
    UpToDate,
    /// Only a check was asked for, and the release differs or a reinstall was asked for.
    Available,
    /// Download, verify and install the release.
    Install,
}

/// The step for an installed commit and the release's commit, with `--check` and `--force`:
/// an unchanged commit is up to date unless forced; a check never installs.
pub fn update_step(installed: &str, available: &str, check: bool, force: bool) -> (r: UpdateStep)
    ensures
        r == (if installed@ == available@ && !force {
            UpdateStep::UpToDate
        } else if check {
            UpdateStep::Available
        } else {
            UpdateStep::Install
        }),
{
    if crate::text::same_text(installed, available) && !force {
        UpdateStep::UpToDate
    } else if check {
        UpdateStep::Available
    } else {
        UpdateStep::Install
    }
}

/// Whether a downloaded executable may replace this one: it ran successfully and reports the
/// release's commit and this platform.
pub fn candidate_matches(ran: bool, commit: &str, platform: &str, release_commit: &str, this_platform: &str) -> (r: bool)
    ensures
        r == (ran && commit@ == release_commit@ && platform@ == this_platform@),
{
    ran && crate::text::same_text(commit, release_commit) && crate::text::same_text(platform, this_platform)
}

} // verus!
