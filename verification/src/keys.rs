//! Object keys and remote paths: the leading-slash rule, the trailing-slash
//! normalisation of folder prefixes, the key an uploaded file gets, the copy
//! source of a server-side copy and the local targets of a folder download.

use vstd::prelude::*;
use crate::error::{PathField, TransferError};
use crate::text::{
    ends_with, ends_with_char, relative_to, starts_with, starts_with_char,
    strip_prefix_or_self,
};

verus! {

/// `s` as a folder prefix: a `/` is added unless `s` is empty or already
/// ends with one.
pub open spec fn folder_prefix_of(s: Seq<char>) -> Seq<char> {
    if s.len() > 0 && !ends_with_char(s, '/') {
        s.push('/')
    } else {
        s
    }
}

/// `s` as an upload destination: a `/` is added unless `s` already ends with one.
pub open spec fn destination_dir_of(s: Seq<char>) -> Seq<char> {
    if ends_with_char(s, '/') {
        s
    } else {
        s.push('/')
    }
}

/// The key of an object uploaded under `prefix` from a file named `file_name`:
/// the prefix followed by the file name when the prefix ends with `/`,
/// the prefix itself otherwise.
pub open spec fn object_key_of(prefix: Seq<char>, file_name: Seq<char>) -> Seq<char> {
    if ends_with_char(prefix, '/') {
        prefix + file_name
    } else {
        prefix
    }
}

/// The copy source of a server-side copy: `/<bucket>/<key>`.
pub open spec fn copy_source_of(bucket: Seq<char>, key: Seq<char>) -> Seq<char> {
    seq!['/'] + bucket + seq!['/'] + key
}

/// Refuses a remote path that begins with `/`.
pub fn require_relative(value: &str, field: PathField) -> (r: Result<(), TransferError>)
    ensures
        r is Ok <==> !starts_with_char(value@, '/'),
        r is Err ==> r == Err::<(), TransferError>(TransferError::LeadingSlash { field }),
{
    if starts_with(value, '/') {
        Err(TransferError::LeadingSlash { field })
    } else {
        Ok(())
    }
}

/// Checks and normalises the destination of an upload: it must not begin
/// with `/`, and it is made to end with `/`.
pub fn upload_destination(destination: &str) -> (r: Result<String, TransferError>)
    ensures
        starts_with_char(destination@, '/') ==> r == Err::<String, TransferError>(
            TransferError::LeadingSlash { field: PathField::Destination },
        ),
        !starts_with_char(destination@, '/') ==> (r matches Ok(d) && d@ == destination_dir_of(
            destination@,
        )),
{
    if starts_with(destination, '/') {
        return Err(TransferError::LeadingSlash { field: PathField::Destination });
    }
    let mut d = String::from_str(destination);
    if !ends_with(destination, '/') {
        proof { reveal_strlit("/"); }
        d.append("/");
    }
    Ok(d)
}

/// Checks and normalises a folder prefix given for `field`: it must not begin
/// with `/`, and a non-empty prefix is made to end with `/` (the empty prefix
/// stands for the top of the bucket).
pub fn folder_prefix(value: &str, field: PathField) -> (r: Result<String, TransferError>)
    ensures
        starts_with_char(value@, '/') ==> r == Err::<String, TransferError>(
            TransferError::LeadingSlash { field },
        ),
        !starts_with_char(value@, '/') ==> (r matches Ok(p) && p@ == folder_prefix_of(value@)),
{
    if starts_with(value, '/') {
        return Err(TransferError::LeadingSlash { field });
    }
    let mut p = String::from_str(value);
    if value.unicode_len() > 0 && !ends_with(value, '/') {
        proof { reveal_strlit("/"); }
        p.append("/");
    }
    Ok(p)
}

/// Normalising a folder prefix twice gives what normalising it once gives, and
/// normalising keeps a prefix free of a leading `/`.
pub proof fn lemma_folder_prefix_idempotent(s: Seq<char>)
    ensures
        folder_prefix_of(folder_prefix_of(s)) == folder_prefix_of(s),
        starts_with_char(folder_prefix_of(s), '/') == starts_with_char(s, '/'),
        folder_prefix_of(s).len() > 0 ==> ends_with_char(folder_prefix_of(s), '/'),
{
}

/// An upload destination names a folder: the normalised destination ends
/// with `/`, begins with the destination as given, and is at most one
/// character longer; a destination that already ends with `/` is kept as it
/// is.
pub proof fn lemma_destination_is_folder(s: Seq<char>)
    ensures
        destination_dir_of(s).len() > 0,
        destination_dir_of(s)[destination_dir_of(s).len() - 1] == '/',
        s.len() <= destination_dir_of(s).len() <= s.len() + 1,
        destination_dir_of(s).subrange(0, s.len() as int) == s,
        s.len() > 0 && s[s.len() - 1] == '/' ==> destination_dir_of(s) == s,
{
    assert(s.push('/').subrange(0, s.len() as int) =~= s);
    assert(s.subrange(0, s.len() as int) =~= s);
}

/// A folder prefix is the prefix as given, followed by `/` when it is
/// non-empty and does not already end with one: the empty prefix stays
/// empty, and any other normalised prefix ends with `/`, begins with the
/// prefix as given and is at most one character longer.
pub proof fn lemma_folder_prefix_shape(s: Seq<char>)
    ensures
        s.len() == 0 ==> folder_prefix_of(s).len() == 0,
        s.len() > 0 ==> folder_prefix_of(s)[folder_prefix_of(s).len() - 1] == '/',
        s.len() <= folder_prefix_of(s).len() <= s.len() + 1,
        folder_prefix_of(s).subrange(0, s.len() as int) == s,
        s.len() > 0 && s[s.len() - 1] == '/' ==> folder_prefix_of(s) == s,
{
    assert(s.push('/').subrange(0, s.len() as int) =~= s);
    assert(s.subrange(0, s.len() as int) =~= s);
}

/// The copy source names the bucket and then the key, each after a `/`:
/// it is `bucket.len() + key.len() + 2` characters long, begins with `/` and
/// the bucket, then has `/`, and ends with the key.
pub proof fn lemma_copy_source_parts(bucket: Seq<char>, key: Seq<char>)
    ensures
        copy_source_of(bucket, key).len() == bucket.len() + key.len() + 2,
        copy_source_of(bucket, key)[0] == '/',
        copy_source_of(bucket, key).subrange(1, bucket.len() as int + 1) == bucket,
        copy_source_of(bucket, key)[bucket.len() as int + 1] == '/',
        copy_source_of(bucket, key).subrange(
            bucket.len() as int + 2,
            bucket.len() + key.len() + 2 as int,
        ) == key,
{
    let c = copy_source_of(bucket, key);
    assert(c.subrange(1, bucket.len() as int + 1) =~= bucket);
    assert(c.subrange(bucket.len() as int + 2, bucket.len() + key.len() + 2 as int) =~= key);
}

/// The key of an uploaded file begins with the prefix; below a prefix that
/// ends with `/` it is followed by the file name, and under any other prefix
/// the key is the prefix alone.
pub proof fn lemma_object_key_parts(prefix: Seq<char>, file_name: Seq<char>)
    ensures
        object_key_of(prefix, file_name).subrange(0, prefix.len() as int) == prefix,
        prefix.len() > 0 && prefix[prefix.len() - 1] == '/' ==> object_key_of(prefix, file_name).len()
            == prefix.len() + file_name.len() && object_key_of(prefix, file_name).subrange(
            prefix.len() as int,
            prefix.len() + file_name.len() as int,
        ) == file_name,
        !(prefix.len() > 0 && prefix[prefix.len() - 1] == '/') ==> object_key_of(prefix, file_name)
            == prefix,
{
    let k = object_key_of(prefix, file_name);
    assert(k.subrange(0, prefix.len() as int) =~= prefix);
    if prefix.len() > 0 && prefix[prefix.len() - 1] == '/' {
        assert(k.subrange(prefix.len() as int, prefix.len() + file_name.len() as int) =~= file_name);
    }
}

/// The key under which a file named `file_name` is stored below `prefix`.
pub fn object_key(prefix: &str, file_name: &str) -> (r: String)
    ensures
        r@ == object_key_of(prefix@, file_name@),
{
    let mut k = String::from_str(prefix);
    if ends_with(prefix, '/') {
        k.append(file_name);
    }
    k
}

/// The copy source of a server-side copy of `key` in `bucket`.
pub fn copy_source(bucket: &str, key: &str) -> (r: String)
    ensures
        r@ == copy_source_of(bucket@, key@),
{
    let mut s = String::new();
    proof { reveal_strlit("/"); }
    s.append("/");
    s.append(bucket);
    s.append("/");
    s.append(key);
    assert(s@ =~= copy_source_of(bucket@, key@));
    s
}


/// Name for the final component that `std::path::Path::file_name` finds in a
/// path given as text (`None` when there is none, as for `/` or a path that
/// ends in `..`).
pub uninterp spec fn path_file_name(path: Seq<char>) -> Option<Seq<char>>;

/// Calls `std::path::Path::file_name` on `path`. Trusted: the result is the
/// named `path_file_name` of the path. A component of a path that was valid
/// UTF-8 is valid UTF-8, so the conversion back to text never fails.
#[verifier::external_body]
fn file_name_of(path: &str) -> (r: Option<String>)
    ensures
        match r {
            Some(n) => path_file_name(path@) == Some(n@),
            None => path_file_name(path@) is None,
        },
{
    let name = std::path::Path::new(path).file_name()?;
    Some(name.to_str()?.to_string())
}

/// Name for the path that `std::path::Path::join` makes of `base` and `name`,
/// as text. What it gives depends on the platform's path rules (which names
/// are absolute, which prefixes and separators there are differ between Unix
/// and Windows, and the documentation only says that a separator is added
/// where one is needed), so it stays a name.
pub uninterp spec fn path_join(base: Seq<char>, name: Seq<char>) -> Seq<char>;

/// Calls `std::path::Path::join`. Trusted: the result is the named
/// `path_join` of the two arguments. Joining two UTF-8 paths gives a UTF-8
/// path, so the lossy conversion back to text loses nothing.
#[verifier::external_body]
fn join_path(base: &str, name: &str) -> (r: String)
    ensures
        r@ == path_join(base@, name@),
{
    std::path::Path::new(base).join(name).to_string_lossy().to_string()
}

/// The key under which the file at `source_path` is stored below `prefix`;
/// refused when the path has no file name.
pub fn upload_object_key(prefix: &str, source_path: &str) -> (r: Result<String, TransferError>)
    ensures
        path_file_name(source_path@) is None ==> (r matches Err(
            TransferError::MissingFileName { source },
        ) && source@ == source_path@),
        path_file_name(source_path@) matches Some(n) ==> (r matches Ok(k) && k@ == object_key_of(
            prefix@,
            n,
        )),
{
    match file_name_of(source_path) {
        Some(name) => Ok(object_key(prefix, name.as_str())),
        None => Err(TransferError::MissingFileName { source: String::from_str(source_path) }),
    }
}

/// An object of a folder download and the local path it is written to.
#[derive(Debug, Clone, PartialEq, Eq)]
pub struct DownloadTarget {
    pub key: String,
    pub destination: String,
}

/// Where each object of a folder download goes: its key relative to `prefix`,
/// joined to `destination_dir`.
pub fn download_targets(prefix: &str, keys: &Vec<String>, destination_dir: &str) -> (r: Vec<
    DownloadTarget,
>)
    ensures
        r.len() == keys.len(),
        forall|i: int|
            0 <= i < keys.len() ==> #[trigger] r[i].key@ == keys[i]@ && r[i].destination@
                == path_join(destination_dir@, relative_to(keys[i]@, prefix@)),
{
    let mut targets: Vec<DownloadTarget> = Vec::new();
    let mut i: usize = 0;
    while i < keys.len()
        invariant
            i <= keys.len(),
            targets.len() == i,
            forall|j: int|
                0 <= j < i ==> #[trigger] targets[j].key@ == keys[j]@ && targets[j].destination@
                    == path_join(destination_dir@, relative_to(keys[j]@, prefix@)),
        decreases keys.len() - i,
    {
        let key = &keys[i];
        let relative = strip_prefix_or_self(key.as_str(), prefix);
        let destination = join_path(destination_dir, relative.as_str());
        targets.push(DownloadTarget { key: key.clone(), destination });
        i = i + 1;
    }
    targets
}

} // verus!
