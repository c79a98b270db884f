//! The documents that answer a request: XML texts that carry the fields of
//! the answer.
//!
//! Each document is defined as a sequence of characters, and the function
//! that writes it is proved to write exactly that. The fields are written as
//! they are.

use crate::encoding::{decimal, push_decimal};
use crate::multipart::InitiateMultipartUploadResponse;
use crate::versioning::{views_of, VersionInfo, VersionView};
use vstd::prelude::*;
use vstd::string::*;

verus! {

/// The line that opens every document.
pub open spec fn xml_header() -> Seq<char> {
    "<?xml version=\"1.0\" encoding=\"UTF-8\"?>\n"@
}

/// An element: the text between an opening and a closing tag of the name.
pub open spec fn element(name: Seq<char>, text: Seq<char>) -> Seq<char> {
    "<"@ + name + ">"@ + text + "</"@ + name + ">"@
}

/// A text between double quotes.
pub open spec fn quoted(text: Seq<char>) -> Seq<char> {
    "\""@ + text + "\""@
}

/// `true` or `false`.
pub open spec fn truth(b: bool) -> Seq<char> {
    if b {
        "true"@
    } else {
        "false"@
    }
}

/// The answer to the call that opens an upload.
pub open spec fn initiate_document(
    bucket: Seq<char>,
    key: Seq<char>,
    upload_id: Seq<char>,
) -> Seq<char> {
    xml_header() + element(
        "InitiateMultipartUploadResult"@,
        element("Bucket"@, bucket) + element("Key"@, key) + element("UploadId"@, upload_id),
    )
}

/// The address under which an object can be read.
pub open spec fn location(bucket: Seq<char>, key: Seq<char>) -> Seq<char> {
    "http://localhost:8080/"@ + bucket + "/"@ + key
}

/// The answer to the call that completes an upload.
pub open spec fn complete_document(bucket: Seq<char>, key: Seq<char>, etag: Seq<char>) -> Seq<
    char,
> {
    xml_header() + element(
        "CompleteMultipartUploadResult"@,
        element("Location"@, location(bucket, key)) + element("Bucket"@, bucket) + element(
            "Key"@,
            key,
        ) + element("ETag"@, quoted(etag)),
    )
}

/// The owner that every listed version is given.
pub open spec fn owner_element() -> Seq<char> {
    element("Owner"@, element("ID"@, "owner"@) + element("DisplayName"@, "owner"@))
}

/// The owner element where a listing names the owner, and nothing where it
/// does not.
pub open spec fn owner_of(with_owner: bool) -> Seq<char> {
    if with_owner {
        owner_element()
    } else {
        Seq::empty()
    }
}

/// One version in a listing, with or without its owner.
pub open spec fn version_element(v: VersionView, with_owner: bool) -> Seq<char> {
    element(
        "Version"@,
        element("Key"@, v.key) + element("VersionId"@, v.version_id) + element(
            "IsLatest"@,
            truth(v.is_latest),
        ) + element("LastModified"@, decimal(v.last_modified as nat)) + element(
            "ETag"@,
            quoted(v.etag),
        ) + element("Size"@, decimal(v.size as nat)) + element("StorageClass"@, "STANDARD"@)
            + owner_of(with_owner),
    )
}

/// The versions of a listing, one after the other.
pub open spec fn version_elements(versions: Seq<VersionView>, with_owner: bool) -> Seq<char>
    decreases versions.len(),
{
    if versions.len() == 0 {
        Seq::empty()
    } else {
        version_elements(versions.drop_last(), with_owner) + version_element(
            versions.last(),
            with_owner,
        )
    }
}

/// The answer to the call that lists the versions of a key.
pub open spec fn list_versions_document(
    bucket: Seq<char>,
    prefix: Seq<char>,
    versions: Seq<VersionView>,
    with_owner: bool,
) -> Seq<char> {
    xml_header() + element(
        "ListVersionsResult"@,
        element("Name"@, bucket) + element("Prefix"@, prefix) + element("KeyMarker"@, Seq::empty())
            + element("VersionIdMarker"@, Seq::empty()) + element("MaxKeys"@, "1000"@) + element(
            "IsTruncated"@,
            "false"@,
        ) + version_elements(versions, with_owner),
    )
}

/// The word for the versioning state of a bucket.
pub open spec fn versioning_status(enabled: bool) -> Seq<char> {
    if enabled {
        "Enabled"@
    } else {
        "Suspended"@
    }
}

/// The answer to the call that asks for the versioning state of a bucket.
pub open spec fn versioning_document(enabled: bool) -> Seq<char> {
    xml_header() + element(
        "VersioningConfiguration"@,
        element("Status"@, versioning_status(enabled)),
    )
}

/// Appends an element to `out`.
pub fn push_element(out: &mut String, name: &str, text: &str)
    ensures
        final(out)@ == old(out)@ + element(name@, text@),
{
    out.append("<");
    out.append(name);
    out.append(">");
    out.append(text);
    out.append("</");
    out.append(name);
    out.append(">");
    assert(out@ =~= old(out)@ + element(name@, text@));
}

/// An element, as a text of its own.
pub fn render_element(name: &str, text: &str) -> (out: String)
    ensures
        out@ == element(name@, text@),
{
    let mut out = String::new();
    push_element(&mut out, name, text);
    assert(out@ =~= element(name@, text@));
    out
}

/// A text between double quotes.
pub fn render_quoted(text: &str) -> (out: String)
    ensures
        out@ == quoted(text@),
{
    let mut out = String::new();
    out.append("\"");
    out.append(text);
    out.append("\"");
    assert(out@ =~= quoted(text@));
    out
}

/// The document made of the header and one element.
fn render_document(name: &str, text: &str) -> (out: String)
    ensures
        out@ == xml_header() + element(name@, text@),
{
    let mut out = String::new();
    out.append("<?xml version=\"1.0\" encoding=\"UTF-8\"?>\n");
    push_element(&mut out, name, text);
    assert(out@ =~= xml_header() + element(name@, text@));
    out
}

impl InitiateMultipartUploadResponse {
    /// Writes the answer to the call that opens an upload.
    pub fn to_xml(&self) -> (out: String)
        ensures
            out@ == initiate_document(self.bucket@, self.key@, self.upload_id@),
    {
        let mut inner = String::new();
        push_element(&mut inner, "Bucket", self.bucket.as_str());
        push_element(&mut inner, "Key", self.key.as_str());
        push_element(&mut inner, "UploadId", self.upload_id.as_str());
        assert(inner@ =~= element("Bucket"@, self.bucket@) + element("Key"@, self.key@) + element(
            "UploadId"@,
            self.upload_id@,
        ));
        render_document("InitiateMultipartUploadResult", inner.as_str())
    }
}

/// Writes the answer to the call that completes an upload.
pub fn render_complete(bucket: &str, key: &str, etag: &str) -> (out: String)
    ensures
        out@ == complete_document(bucket@, key@, etag@),
{
    let mut address = String::new();
    address.append("http://localhost:8080/");
    address.append(bucket);
    address.append("/");
    address.append(key);
    assert(address@ =~= location(bucket@, key@));
    let tag = render_quoted(etag);
    let mut inner = String::new();
    push_element(&mut inner, "Location", address.as_str());
    push_element(&mut inner, "Bucket", bucket);
    push_element(&mut inner, "Key", key);
    push_element(&mut inner, "ETag", tag.as_str());
    assert(inner@ =~= element("Location"@, location(bucket@, key@)) + element("Bucket"@, bucket@)
        + element("Key"@, key@) + element("ETag"@, quoted(etag@)));
    render_document("CompleteMultipartUploadResult", inner.as_str())
}

/// Appends one version of a listing to `out`.
fn push_version(out: &mut String, version: &VersionInfo, with_owner: bool)
    ensures
        final(out)@ == old(out)@ + version_element(version@, with_owner),
{
    let mut modified = String::new();
    push_decimal(&mut modified, version.last_modified);
    assert(modified@ =~= decimal(version.last_modified as nat));
    let mut size = String::new();
    push_decimal(&mut size, version.size);
    assert(size@ =~= decimal(version.size as nat));
    let tag = render_quoted(version.etag.as_str());
    let mut inner = String::new();
    push_element(&mut inner, "Key", version.key.as_str());
    push_element(&mut inner, "VersionId", version.version_id.as_str());
    if version.is_latest {
        push_element(&mut inner, "IsLatest", "true");
    } else {
        push_element(&mut inner, "IsLatest", "false");
    }
    push_element(&mut inner, "LastModified", modified.as_str());
    push_element(&mut inner, "ETag", tag.as_str());
    push_element(&mut inner, "Size", size.as_str());
    push_element(&mut inner, "StorageClass", "STANDARD");
    if with_owner {
        let mut owner = String::new();
        push_element(&mut owner, "ID", "owner");
        push_element(&mut owner, "DisplayName", "owner");
        assert(owner@ =~= element("ID"@, "owner"@) + element("DisplayName"@, "owner"@));
        push_element(&mut inner, "Owner", owner.as_str());
    }
    let ghost v = version@;
    assert(inner@ =~= element("Key"@, v.key) + element("VersionId"@, v.version_id) + element(
        "IsLatest"@,
        truth(v.is_latest),
    ) + element("LastModified"@, decimal(v.last_modified as nat)) + element(
        "ETag"@,
        quoted(v.etag),
    ) + element("Size"@, decimal(v.size as nat)) + element("StorageClass"@, "STANDARD"@)
        + owner_of(with_owner));
    push_element(out, "Version", inner.as_str());
}

/// Writes the answer to the call that lists the versions of a key.
pub fn render_list_versions(
    bucket: &str,
    prefix: &str,
    versions: &Vec<VersionInfo>,
    with_owner: bool,
) -> (out: String)
    ensures
        out@ == list_versions_document(bucket@, prefix@, views_of(versions@), with_owner),
{
    let mut inner = String::new();
    push_element(&mut inner, "Name", bucket);
    push_element(&mut inner, "Prefix", prefix);
    push_element(&mut inner, "KeyMarker", "");
    push_element(&mut inner, "VersionIdMarker", "");
    push_element(&mut inner, "MaxKeys", "1000");
    push_element(&mut inner, "IsTruncated", "false");
    proof {
        reveal_strlit("");
        assert(""@ =~= Seq::<char>::empty());
    }
    let ghost head = element("Name"@, bucket@) + element("Prefix"@, prefix@) + element(
        "KeyMarker"@,
        Seq::empty(),
    ) + element("VersionIdMarker"@, Seq::empty()) + element("MaxKeys"@, "1000"@) + element(
        "IsTruncated"@,
        "false"@,
    );
    assert(inner@ =~= head);
    let ghost views = views_of(versions@);
    let mut i: usize = 0;
    assert(views.take(0) =~= Seq::<VersionView>::empty());
    while i < versions.len()
        invariant
            i <= versions.len(),
            views == views_of(versions@),
            inner@ == head + version_elements(views.take(i as int), with_owner),
        decreases versions.len() - i,
    {
        push_version(&mut inner, &versions[i], with_owner);
        proof {
            let next = views.take(i as int + 1);
            assert(next.drop_last() =~= views.take(i as int));
            assert(next.last() == versions@[i as int]@);
            assert(inner@ =~= head + version_elements(next, with_owner));
        }
        i += 1;
    }
    assert(views.take(i as int) =~= views);
    render_document("ListVersionsResult", inner.as_str())
}

/// Writes the answer to the call that asks for the versioning state of a
/// bucket.
pub fn render_versioning(enabled: bool) -> (out: String)
    ensures
        out@ == versioning_document(enabled),
{
    let status = if enabled {
        render_element("Status", "Enabled")
    } else {
        render_element("Status", "Suspended")
    };
    render_document("VersioningConfiguration", status.as_str())
}

} // verus!
