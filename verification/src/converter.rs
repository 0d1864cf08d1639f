//! Assembly of the recipe parameters for one source group: the descriptive
//! fields of a representative package, one upstream declaration (absolute
//! URI and content hash) per artifact, and the artifact file names for the
//! install fragment. Rendering the recipe text itself is left to the caller.

use vstd::prelude::*;
use crate::eopkg::index::{Package, PackageView};
use crate::graph::clone_string_vec;
use crate::uri::{resolved_url, url_last_segment, join_url, url_filename};

verus! {

/// Lowercase hex digit of a nibble.
pub open spec fn hex_digit(n: u8) -> char
    recommends
        n < 16,
{
    seq!['0', '1', '2', '3', '4', '5', '6', '7', '8', '9', 'a', 'b', 'c', 'd', 'e', 'f'][n as int]
}

/// Lowercase hex encoding of a byte sequence: two digits per byte, high
/// nibble first.
pub open spec fn hex_of(bytes: Seq<u8>) -> Seq<char>
    decreases bytes.len(),
{
    if bytes.len() == 0 {
        Seq::empty()
    } else {
        hex_of(bytes.drop_last()) + seq![
            hex_digit(bytes.last() / 16),
            hex_digit(bytes.last() % 16),
        ]
    }
}

/// Relies on const_hex::encode: lowercase hex, two digits per byte.
#[verifier::external_body]
fn encode_hex(bytes: &[u8]) -> (r: String)
    ensures
        r@ == hex_of(bytes@),
{
    const_hex::encode(bytes)
}

/// A fetched artifact: the package record it came from and the content
/// hash of its downloaded bytes. Created only on fetch success.
pub struct HashedPackage {
    /// Finalised hash
    pub hash: [u8; 32],
    /// Actual package itself
    pub package: Package,
}

/// One upstream declaration of a recipe: the artifact's absolute URI and
/// the hex form of its content hash.
pub struct Upstream {
    pub uri: String,
    pub hash_hex: String,
}

/// The assembled parameters of one recipe document.
pub struct Recipe {
    pub name: String,
    pub version: String,
    pub release: u64,
    pub homepage: String,
    pub summary: String,
    pub description: String,
    pub licenses: Vec<String>,
    pub upstreams: Vec<Upstream>,
    pub install_files: Vec<String>,
}

/// Errors of recipe assembly.
#[derive(Debug)]
pub enum Error {
    /// A resolved artifact URL has no final path segment to name its file.
    Path,
    /// The group is empty, so no representative package exists.
    NoPackage,
    /// An artifact URI does not resolve against the origin.
    Url,
}

/// Whether the artifact URI of `p` resolves against `base`.
pub open spec fn upstream_ok(base: Seq<char>, p: PackageView) -> bool {
    resolved_url(base, p.package_uri) is Some
}

/// Whether the resolved artifact URL of `p` also yields a file name.
pub open spec fn file_ok(base: Seq<char>, p: PackageView) -> bool {
    &&& upstream_ok(base, p)
    &&& url_last_segment(resolved_url(base, p.package_uri).unwrap()) is Some
}

/// For the given input packages, yield the parameters of a working recipe:
/// descriptive fields from the first package of the group, an upstream
/// entry per artifact and the artifact file names for the install script.
///
/// Fails with `Url` when some artifact URI does not resolve, with
/// `NoPackage` when the group is empty, and with `Path` when a resolved
/// URL yields no file name — each if and only if so, in that order.
pub fn convert(input: &Vec<HashedPackage>, base_uri: &str) -> (r: Result<Recipe, Error>)
    requires
        input@.len() > 0 ==> input@[0].package@.history.len() > 0,
    ensures
        match r {
            Ok(rec) => {
                &&& input@.len() > 0
                &&& forall|i: int|
                    0 <= i < input@.len() ==> file_ok(base_uri@, (#[trigger] input@[i]).package@)
                &&& rec.name@ == input@[0].package@.source.name
                &&& rec.version@ == input@[0].package@.history[0].version
                &&& rec.release == input@[0].package@.history[0].release
                &&& rec.homepage@ == match input@[0].package@.source.homepage {
                    Some(h) => h,
                    None => "no-homepage-set"@,
                }
                &&& rec.summary@ == input@[0].package@.summary
                &&& rec.description@ == input@[0].package@.description
                &&& rec.licenses.deep_view() == input@[0].package@.licenses
                &&& rec.upstreams@.len() == input@.len()
                &&& forall|i: int|
                    0 <= i < input@.len() ==> (#[trigger] rec.upstreams@[i]).uri@ == resolved_url(
                        base_uri@,
                        input@[i].package@.package_uri,
                    ).unwrap() && rec.upstreams@[i].hash_hex@ == hex_of(input@[i].hash@)
                &&& rec.install_files.deep_view().len() == input@.len()
                &&& forall|i: int|
                    0 <= i < input@.len() ==> #[trigger] rec.install_files.deep_view()[i]
                        == url_last_segment(
                        resolved_url(base_uri@, input@[i].package@.package_uri).unwrap(),
                    ).unwrap()
            },
            Err(e) => match e {
                Error::Url => exists|i: int|
                    0 <= i < input@.len() && !upstream_ok(base_uri@, (#[trigger] input@[i]).package@),
                Error::NoPackage => input@.len() == 0,
                Error::Path => {
                    &&& input@.len() > 0
                    &&& forall|i: int|
                        0 <= i < input@.len() ==> upstream_ok(
                            base_uri@,
                            (#[trigger] input@[i]).package@,
                        )
                    &&& exists|i: int|
                        0 <= i < input@.len() && !file_ok(
                            base_uri@,
                            (#[trigger] input@[i]).package@,
                        )
                },
            },
        },
{
    let n = input.len();
    let mut upstreams: Vec<Upstream> = Vec::new();
    let mut i: usize = 0;
    while i < n
        invariant
            i <= n,
            n == input@.len(),
            input@.len() > 0 ==> input@[0].package@.history.len() > 0,
            upstreams@.len() == i,
            forall|j: int|
                0 <= j < i ==> upstream_ok(base_uri@, (#[trigger] input@[j]).package@),
            forall|j: int|
                0 <= j < i ==> (#[trigger] upstreams@[j]).uri@ == resolved_url(
                    base_uri@,
                    input@[j].package@.package_uri,
                ).unwrap() && upstreams@[j].hash_hex@ == hex_of(input@[j].hash@),
        decreases n - i,
    {
        let hp = &input[i];
        let uri = match join_url(base_uri, hp.package.package_uri.as_str()) {
            Some(u) => u,
            None => {
                return Err(Error::Url);
            },
        };
        let hash_hex = encode_hex(hp.hash.as_slice());
        upstreams.push(Upstream { uri, hash_hex });
        i = i + 1;
    }
    if n == 0 {
        return Err(Error::NoPackage);
    }
    let mut install_files: Vec<String> = Vec::new();
    let mut k: usize = 0;
    while k < n
        invariant
            k <= n,
            n == input@.len(),
            n > 0,
            forall|j: int|
                0 <= j < n ==> upstream_ok(base_uri@, (#[trigger] input@[j]).package@),
            install_files@.len() == k,
            forall|j: int|
                0 <= j < k ==> file_ok(base_uri@, (#[trigger] input@[j]).package@),
            forall|j: int|
                0 <= j < k ==> #[trigger] install_files.deep_view()[j] == url_last_segment(
                    resolved_url(base_uri@, input@[j].package@.package_uri).unwrap(),
                ).unwrap(),
        decreases n - k,
    {
        let hp = &input[k];
        let uri = match join_url(base_uri, hp.package.package_uri.as_str()) {
            Some(u) => u,
            None => {
                proof {
                    assert(upstream_ok(base_uri@, input@[k as int].package@));
                }
                return Err(Error::Url);
            },
        };
        let filename = match url_filename(uri.as_str()) {
            Some(f) => f,
            None => {
                return Err(Error::Path);
            },
        };
        let ghost files0 = install_files.deep_view();
        let ghost fname = filename@;
        install_files.push(filename);
        proof {
            assert(install_files.deep_view() =~= files0.push(fname));
        }
        k = k + 1;
    }
    let sample = &input[0];
    let homepage = match &sample.package.source.homepage {
        Some(h) => h.clone(),
        None => "no-homepage-set".to_owned(),
    };
    proof {
        assert(sample.package@.history[0] == sample.package.history.updates@[0]@);
    }
    let rec = Recipe {
        name: sample.package.source.name.clone(),
        version: sample.package.history.updates[0].version.clone(),
        release: sample.package.history.updates[0].release,
        homepage,
        summary: sample.package.summary.clone(),
        description: sample.package.description.clone(),
        licenses: clone_string_vec(&sample.package.licenses),
        upstreams,
        install_files,
    };
    Ok(rec)
}

} // verus!
