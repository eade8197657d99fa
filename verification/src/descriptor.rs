use vstd::prelude::*;

use prost::Message;

use crate::registry::FileSchemaUnit;

verus! {

/// The name and dependency names carried by one file of a decoded
/// descriptor set, with the serialized content the unit keeps.
pub struct FileUnitModel {
    pub name: Seq<char>,
    pub dependencies: Seq<Seq<char>>,
    pub content: Seq<u8>,
}

/// What prost's `FileDescriptorProto::decode` yields on `bytes`: `None`
/// where the bytes are rejected, else the file's name and its dependency
/// names. The result is a function of the bytes alone.
pub uninterp spec fn decoded_file(bytes: Seq<u8>) -> Option<(Seq<char>, Seq<Seq<char>>)>;

/// What prost's `FileDescriptorSet::decode` yields on `bytes`, each
/// contained file re-serialized on its own by prost's
/// `Message::encode_to_vec` as that unit's content: `None` where the bytes
/// are rejected. The result is a function of the bytes alone.
pub uninterp spec fn decoded_file_set(bytes: Seq<u8>) -> Option<Seq<FileUnitModel>>;

/// Relies on `prost_types::FileDescriptorProto::decode` (prost's
/// `Message::decode`): parses one serialized file descriptor, which is a
/// function of the bytes alone; the unit keeps the bytes themselves as its
/// content. The error text is the decoder's message.
#[verifier::external_body]
pub(crate) fn decode_file_descriptor(bytes: &Vec<u8>) -> (r: Result<FileSchemaUnit, String>)
    ensures
        match r {
            Ok(u) => decoded_file(bytes@) matches Some(m) && u.name@ == m.0
                && u.dependency.deep_view() == m.1 && u.content@ == bytes@,
            Err(_) => decoded_file(bytes@) is None,
        },
{
    match prost_types::FileDescriptorProto::decode(bytes.as_slice()) {
        Ok(fdp) => Ok(FileSchemaUnit {
            name: fdp.name().to_string(),
            dependency: fdp.dependency.clone(),
            content: bytes.clone(),
        }),
        Err(e) => Err(e.to_string()),
    }
}

/// Relies on `prost_types::FileDescriptorSet::decode` and prost's
/// `Message::encode_to_vec`: parses a serialized descriptor set and
/// re-serializes each contained file on its own as that unit's content;
/// both are functions of the bytes alone. The error text is the decoder's
/// message.
#[verifier::external_body]
pub(crate) fn decode_file_descriptor_set(bytes: &Vec<u8>) -> (r: Result<
    Vec<FileSchemaUnit>,
    String,
>)
    ensures
        match r {
            Ok(units) => decoded_file_set(bytes@) matches Some(ms) && units@.len() == ms.len()
                && forall|i: int|
                    0 <= i < units@.len() ==> (#[trigger] units@[i]).name@ == ms[i].name
                        && units@[i].dependency.deep_view() == ms[i].dependencies
                        && units@[i].content@ == ms[i].content,
            Err(_) => decoded_file_set(bytes@) is None,
        },
{
    let fds = match prost_types::FileDescriptorSet::decode(bytes.as_slice()) {
        Ok(fds) => fds,
        Err(e) => {
            return Err(e.to_string());
        },
    };
    let mut units = Vec::new();
    for f in fds.file {
        units.push(FileSchemaUnit {
            name: f.name().to_string(),
            dependency: f.dependency.clone(),
            content: f.encode_to_vec(),
        });
    }
    Ok(units)
}

} // verus!
