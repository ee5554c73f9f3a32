//! Queries over a flattened devicetree: node predicates, scalar property
//! reads and phandle-with-arguments resolution.
mod blob;
mod error;
mod parsing;
mod phandle_arg;
mod phandle_list;
mod predicates;
mod tree;

pub use fdt::node::FdtNode as OfNode;

pub use blob::{
    blob_ok, blocks_in, check_blob, cstr_ok, first_nul, header_ok, round4, scan, strings_block,
    struct_block,
};
pub use error::OfError;
pub use parsing::{be_u32_at, be_u32_of, read_u32_cell};
pub use phandle_arg::{
    cell_count_from, entry_matches, lemma_records_determined, record_holds, lookup_count, name_of, OfPhandleArgs, OfPhandleIterator,
};
pub use phandle_list::{
    advance, args_spec, be_bytes, be_u64_of, cells_of, count_value, count_value_spec, counts_agree,
    drain_spec, encode_cells, encode_list, entries_len, entry_len, holds_args, lemma_advance_push,
    lemma_drain_encoded_list, lemma_drain_steps, lemma_nth_past_end, lemma_recorded_push, lemma_walk_is_nth,
    lemma_walk_last_step, nth_spec, read_args, read_phandle, recorded_by, step_spec, step_with,
    walk_with, whole_walk, MAX_PHANDLE_ARGS,
};
pub use predicates::{
    availability, bytes_eq, compatible_matches, device_status_available, lists_intersect,
    ok_bytes, okay_bytes, property_text, trim_nuls, trimmed_len,
};
pub use tree::{
    bootargs, cell_spec, compat_of, fdt_bytes, fdt_size, find_compatible_node, find_phandle,
    lemma_selected_exact, machin_name, machine_name_spec, memory_nodes, node_blob, node_matches,
    nodes_of, of_device_is_available, of_parse_phandle_with_args, of_property_read_u32, opt_strs,
    opt_text, path_node, path_nodes, pcsi, phandle_target, pick_machine_name, prop_bytes,
    select_compatible, selected, str_bytes, text_spec, MachineFdt, Memory, Pcsi,
};
