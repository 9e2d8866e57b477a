use vstd::prelude::*;

mod bytes;
mod text;
mod checksum;
mod chip;
mod digest;
mod errors;
mod layout;
mod metadata;
mod pack;
mod package;
mod time;
mod unpack;

pub use bytes::get_u32_le;
pub use bytes::put_u32_le;
pub use checksum::rkcrc32;
pub use checksum::checksum_trailer;
pub use chip::chip_name_to_code;
pub use chip::chip_code_to_name;
pub use chip::chip_digits;
pub use errors::Error;
pub use text::decode_fixed_string;
pub use text::encode_fixed_string;
pub use text::format_hex_u32;
pub use text::parse_code_hex_field;
pub use text::parse_metadata_hex_field;
pub use text::parse_dec;
pub use text::trim_ascii;
pub use text::split_all;
pub use text::split_tokens;
pub use layout::MAX_NAME_LEN;
pub use metadata::PartitionMetadata;
pub use pack::pack_rkfw;
pub use pack::pack_rkaf;
pub use package::parse_package_file;
pub use unpack::ContainerKind;
pub use unpack::RkafEntryOut;
pub use unpack::RkafUnpacked;
pub use unpack::classify_container;
pub use unpack::extract_part;
pub use unpack::unpack_rkafp;
pub use unpack::unpack_rkfw;
pub use unpack::RkfwInfo;
pub use package::parse_machine_id;
pub use metadata::parse_partition_metadata;
pub use metadata::meta_lookup;
pub use metadata::format_meta_line;
pub use layout::MAX_PARTS;
pub use layout::ParamHeader;
pub use layout::UpdateHeader;
pub use layout::UpdatePart;

verus! {

} // verus!
