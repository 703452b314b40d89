//! The dictionary keys and fixed words that the formats use, as bytes.
use vstd::prelude::*;

verus! {

/// The bytes of `m`.
pub open spec fn m_key() -> Seq<u8> {
    seq![109u8]
}

/// `m`, as bytes.
pub fn m_bytes() -> (r: Vec<u8>)
    ensures
        r@ == m_key(),
{
    let r: Vec<u8> = vec![109u8];
    proof {
        assert(r@ =~= m_key());
    }
    r
}

/// The bytes of `ut_metadata`.
pub open spec fn ut_metadata_key() -> Seq<u8> {
    seq![117u8, 116, 95, 109, 101, 116, 97, 100, 97, 116, 97]
}

/// `ut_metadata`, as bytes.
pub fn ut_metadata_bytes() -> (r: Vec<u8>)
    ensures
        r@ == ut_metadata_key(),
{
    let r: Vec<u8> = vec![117u8, 116, 95, 109, 101, 116, 97, 100, 97, 116, 97];
    proof {
        assert(r@ =~= ut_metadata_key());
    }
    r
}

/// The bytes of `metadata_size`.
pub open spec fn metadata_size_key() -> Seq<u8> {
    seq![109u8, 101, 116, 97, 100, 97, 116, 97, 95, 115, 105, 122, 101]
}

/// `metadata_size`, as bytes.
pub fn metadata_size_bytes() -> (r: Vec<u8>)
    ensures
        r@ == metadata_size_key(),
{
    let r: Vec<u8> = vec![109u8, 101, 116, 97, 100, 97, 116, 97, 95, 115, 105, 122, 101];
    proof {
        assert(r@ =~= metadata_size_key());
    }
    r
}

/// The bytes of `msg_type`.
pub open spec fn msg_type_key() -> Seq<u8> {
    seq![109u8, 115, 103, 95, 116, 121, 112, 101]
}

/// `msg_type`, as bytes.
pub fn msg_type_bytes() -> (r: Vec<u8>)
    ensures
        r@ == msg_type_key(),
{
    let r: Vec<u8> = vec![109u8, 115, 103, 95, 116, 121, 112, 101];
    proof {
        assert(r@ =~= msg_type_key());
    }
    r
}

/// The bytes of `piece`.
pub open spec fn piece_key() -> Seq<u8> {
    seq![112u8, 105, 101, 99, 101]
}

/// `piece`, as bytes.
pub fn piece_bytes() -> (r: Vec<u8>)
    ensures
        r@ == piece_key(),
{
    let r: Vec<u8> = vec![112u8, 105, 101, 99, 101];
    proof {
        assert(r@ =~= piece_key());
    }
    r
}

/// The bytes of `total_size`.
pub open spec fn total_size_key() -> Seq<u8> {
    seq![116u8, 111, 116, 97, 108, 95, 115, 105, 122, 101]
}

/// `total_size`, as bytes.
pub fn total_size_bytes() -> (r: Vec<u8>)
    ensures
        r@ == total_size_key(),
{
    let r: Vec<u8> = vec![116u8, 111, 116, 97, 108, 95, 115, 105, 122, 101];
    proof {
        assert(r@ =~= total_size_key());
    }
    r
}

/// The bytes of `info`.
pub open spec fn info_key() -> Seq<u8> {
    seq![105u8, 110, 102, 111]
}

/// `info`, as bytes.
pub fn info_bytes() -> (r: Vec<u8>)
    ensures
        r@ == info_key(),
{
    let r: Vec<u8> = vec![105u8, 110, 102, 111];
    proof {
        assert(r@ =~= info_key());
    }
    r
}

/// The bytes of `name`.
pub open spec fn name_key() -> Seq<u8> {
    seq![110u8, 97, 109, 101]
}

/// `name`, as bytes.
pub fn name_bytes() -> (r: Vec<u8>)
    ensures
        r@ == name_key(),
{
    let r: Vec<u8> = vec![110u8, 97, 109, 101];
    proof {
        assert(r@ =~= name_key());
    }
    r
}

/// The bytes of `piece length`.
pub open spec fn piece_length_key() -> Seq<u8> {
    seq![112u8, 105, 101, 99, 101, 32, 108, 101, 110, 103, 116, 104]
}

/// `piece length`, as bytes.
pub fn piece_length_bytes() -> (r: Vec<u8>)
    ensures
        r@ == piece_length_key(),
{
    let r: Vec<u8> = vec![112u8, 105, 101, 99, 101, 32, 108, 101, 110, 103, 116, 104];
    proof {
        assert(r@ =~= piece_length_key());
    }
    r
}

/// The bytes of `pieces`.
pub open spec fn pieces_key() -> Seq<u8> {
    seq![112u8, 105, 101, 99, 101, 115]
}

/// `pieces`, as bytes.
pub fn pieces_bytes() -> (r: Vec<u8>)
    ensures
        r@ == pieces_key(),
{
    let r: Vec<u8> = vec![112u8, 105, 101, 99, 101, 115];
    proof {
        assert(r@ =~= pieces_key());
    }
    r
}

/// The bytes of `length`.
pub open spec fn length_key() -> Seq<u8> {
    seq![108u8, 101, 110, 103, 116, 104]
}

/// `length`, as bytes.
pub fn length_bytes() -> (r: Vec<u8>)
    ensures
        r@ == length_key(),
{
    let r: Vec<u8> = vec![108u8, 101, 110, 103, 116, 104];
    proof {
        assert(r@ =~= length_key());
    }
    r
}

/// The bytes of `files`.
pub open spec fn files_key() -> Seq<u8> {
    seq![102u8, 105, 108, 101, 115]
}

/// `files`, as bytes.
pub fn files_bytes() -> (r: Vec<u8>)
    ensures
        r@ == files_key(),
{
    let r: Vec<u8> = vec![102u8, 105, 108, 101, 115];
    proof {
        assert(r@ =~= files_key());
    }
    r
}

/// The bytes of `path`.
pub open spec fn path_key() -> Seq<u8> {
    seq![112u8, 97, 116, 104]
}

/// `path`, as bytes.
pub fn path_bytes() -> (r: Vec<u8>)
    ensures
        r@ == path_key(),
{
    let r: Vec<u8> = vec![112u8, 97, 116, 104];
    proof {
        assert(r@ =~= path_key());
    }
    r
}

/// The bytes of `announce`.
pub open spec fn announce_key() -> Seq<u8> {
    seq![97u8, 110, 110, 111, 117, 110, 99, 101]
}

/// `announce`, as bytes.
pub fn announce_bytes() -> (r: Vec<u8>)
    ensures
        r@ == announce_key(),
{
    let r: Vec<u8> = vec![97u8, 110, 110, 111, 117, 110, 99, 101];
    proof {
        assert(r@ =~= announce_key());
    }
    r
}

/// The bytes of `announce-list`.
pub open spec fn announce_list_key() -> Seq<u8> {
    seq![97u8, 110, 110, 111, 117, 110, 99, 101, 45, 108, 105, 115, 116]
}

/// `announce-list`, as bytes.
pub fn announce_list_bytes() -> (r: Vec<u8>)
    ensures
        r@ == announce_list_key(),
{
    let r: Vec<u8> = vec![97u8, 110, 110, 111, 117, 110, 99, 101, 45, 108, 105, 115, 116];
    proof {
        assert(r@ =~= announce_list_key());
    }
    r
}

/// The bytes of `failure reason`.
pub open spec fn failure_reason_key() -> Seq<u8> {
    seq![102u8, 97, 105, 108, 117, 114, 101, 32, 114, 101, 97, 115, 111, 110]
}

/// `failure reason`, as bytes.
pub fn failure_reason_bytes() -> (r: Vec<u8>)
    ensures
        r@ == failure_reason_key(),
{
    let r: Vec<u8> = vec![102u8, 97, 105, 108, 117, 114, 101, 32, 114, 101, 97, 115, 111, 110];
    proof {
        assert(r@ =~= failure_reason_key());
    }
    r
}

/// The bytes of `interval`.
pub open spec fn interval_key() -> Seq<u8> {
    seq![105u8, 110, 116, 101, 114, 118, 97, 108]
}

/// `interval`, as bytes.
pub fn interval_bytes() -> (r: Vec<u8>)
    ensures
        r@ == interval_key(),
{
    let r: Vec<u8> = vec![105u8, 110, 116, 101, 114, 118, 97, 108];
    proof {
        assert(r@ =~= interval_key());
    }
    r
}

/// The bytes of `peers`.
pub open spec fn peers_key() -> Seq<u8> {
    seq![112u8, 101, 101, 114, 115]
}

/// `peers`, as bytes.
pub fn peers_bytes() -> (r: Vec<u8>)
    ensures
        r@ == peers_key(),
{
    let r: Vec<u8> = vec![112u8, 101, 101, 114, 115];
    proof {
        assert(r@ =~= peers_key());
    }
    r
}

/// The bytes of `ip`.
pub open spec fn ip_key() -> Seq<u8> {
    seq![105u8, 112]
}

/// `ip`, as bytes.
pub fn ip_bytes() -> (r: Vec<u8>)
    ensures
        r@ == ip_key(),
{
    let r: Vec<u8> = vec![105u8, 112];
    proof {
        assert(r@ =~= ip_key());
    }
    r
}

/// The bytes of `port`.
pub open spec fn port_key() -> Seq<u8> {
    seq![112u8, 111, 114, 116]
}

/// `port`, as bytes.
pub fn port_bytes() -> (r: Vec<u8>)
    ensures
        r@ == port_key(),
{
    let r: Vec<u8> = vec![112u8, 111, 114, 116];
    proof {
        assert(r@ =~= port_key());
    }
    r
}

/// The bytes of `t`.
pub open spec fn t_key() -> Seq<u8> {
    seq![116u8]
}

/// `t`, as bytes.
pub fn t_bytes() -> (r: Vec<u8>)
    ensures
        r@ == t_key(),
{
    let r: Vec<u8> = vec![116u8];
    proof {
        assert(r@ =~= t_key());
    }
    r
}

/// The bytes of `y`.
pub open spec fn y_key() -> Seq<u8> {
    seq![121u8]
}

/// `y`, as bytes.
pub fn y_bytes() -> (r: Vec<u8>)
    ensures
        r@ == y_key(),
{
    let r: Vec<u8> = vec![121u8];
    proof {
        assert(r@ =~= y_key());
    }
    r
}

/// The bytes of `q`.
pub open spec fn q_key() -> Seq<u8> {
    seq![113u8]
}

/// `q`, as bytes.
pub fn q_bytes() -> (r: Vec<u8>)
    ensures
        r@ == q_key(),
{
    let r: Vec<u8> = vec![113u8];
    proof {
        assert(r@ =~= q_key());
    }
    r
}

/// The bytes of `a`.
pub open spec fn a_key() -> Seq<u8> {
    seq![97u8]
}

/// `a`, as bytes.
pub fn a_bytes() -> (r: Vec<u8>)
    ensures
        r@ == a_key(),
{
    let r: Vec<u8> = vec![97u8];
    proof {
        assert(r@ =~= a_key());
    }
    r
}

/// The bytes of `id`.
pub open spec fn id_key() -> Seq<u8> {
    seq![105u8, 100]
}

/// `id`, as bytes.
pub fn id_bytes() -> (r: Vec<u8>)
    ensures
        r@ == id_key(),
{
    let r: Vec<u8> = vec![105u8, 100];
    proof {
        assert(r@ =~= id_key());
    }
    r
}

/// The bytes of `r`.
pub open spec fn r_key() -> Seq<u8> {
    seq![114u8]
}

/// `r`, as bytes.
pub fn r_bytes() -> (r: Vec<u8>)
    ensures
        r@ == r_key(),
{
    let r: Vec<u8> = vec![114u8];
    proof {
        assert(r@ =~= r_key());
    }
    r
}

/// The bytes of `e`.
pub open spec fn e_key() -> Seq<u8> {
    seq![101u8]
}

/// `e`, as bytes.
pub fn e_bytes() -> (r: Vec<u8>)
    ensures
        r@ == e_key(),
{
    let r: Vec<u8> = vec![101u8];
    proof {
        assert(r@ =~= e_key());
    }
    r
}

/// The bytes of `hash`.
pub open spec fn hash_key() -> Seq<u8> {
    seq![104u8, 97, 115, 104]
}

/// `hash`, as bytes.
pub fn hash_bytes() -> (r: Vec<u8>)
    ensures
        r@ == hash_key(),
{
    let r: Vec<u8> = vec![104u8, 97, 115, 104];
    proof {
        assert(r@ =~= hash_key());
    }
    r
}

/// The bytes of `have`.
pub open spec fn have_key() -> Seq<u8> {
    seq![104u8, 97, 118, 101]
}

/// `have`, as bytes.
pub fn have_bytes() -> (r: Vec<u8>)
    ensures
        r@ == have_key(),
{
    let r: Vec<u8> = vec![104u8, 97, 118, 101];
    proof {
        assert(r@ =~= have_key());
    }
    r
}

/// The bytes of `http://`.
pub open spec fn http_scheme_key() -> Seq<u8> {
    seq![104u8, 116, 116, 112, 58, 47, 47]
}

/// `http://`, as bytes.
pub fn http_scheme_bytes() -> (r: Vec<u8>)
    ensures
        r@ == http_scheme_key(),
{
    let r: Vec<u8> = vec![104u8, 116, 116, 112, 58, 47, 47];
    proof {
        assert(r@ =~= http_scheme_key());
    }
    r
}

/// The bytes of `udp://`.
pub open spec fn udp_scheme_key() -> Seq<u8> {
    seq![117u8, 100, 112, 58, 47, 47]
}

/// `udp://`, as bytes.
pub fn udp_scheme_bytes() -> (r: Vec<u8>)
    ensures
        r@ == udp_scheme_key(),
{
    let r: Vec<u8> = vec![117u8, 100, 112, 58, 47, 47];
    proof {
        assert(r@ =~= udp_scheme_key());
    }
    r
}

/// The bytes of `info_hash=`.
pub open spec fn q_info_hash_key() -> Seq<u8> {
    seq![105u8, 110, 102, 111, 95, 104, 97, 115, 104, 61]
}

/// `info_hash=`, as bytes.
pub fn q_info_hash_bytes() -> (r: Vec<u8>)
    ensures
        r@ == q_info_hash_key(),
{
    let r: Vec<u8> = vec![105u8, 110, 102, 111, 95, 104, 97, 115, 104, 61];
    proof {
        assert(r@ =~= q_info_hash_key());
    }
    r
}

/// The bytes of `&peer_id=`.
pub open spec fn q_peer_id_key() -> Seq<u8> {
    seq![38u8, 112, 101, 101, 114, 95, 105, 100, 61]
}

/// `&peer_id=`, as bytes.
pub fn q_peer_id_bytes() -> (r: Vec<u8>)
    ensures
        r@ == q_peer_id_key(),
{
    let r: Vec<u8> = vec![38u8, 112, 101, 101, 114, 95, 105, 100, 61];
    proof {
        assert(r@ =~= q_peer_id_key());
    }
    r
}

/// The bytes of `&port=`.
pub open spec fn q_port_key() -> Seq<u8> {
    seq![38u8, 112, 111, 114, 116, 61]
}

/// `&port=`, as bytes.
pub fn q_port_bytes() -> (r: Vec<u8>)
    ensures
        r@ == q_port_key(),
{
    let r: Vec<u8> = vec![38u8, 112, 111, 114, 116, 61];
    proof {
        assert(r@ =~= q_port_key());
    }
    r
}

/// The bytes of `&uploaded=`.
pub open spec fn q_uploaded_key() -> Seq<u8> {
    seq![38u8, 117, 112, 108, 111, 97, 100, 101, 100, 61]
}

/// `&uploaded=`, as bytes.
pub fn q_uploaded_bytes() -> (r: Vec<u8>)
    ensures
        r@ == q_uploaded_key(),
{
    let r: Vec<u8> = vec![38u8, 117, 112, 108, 111, 97, 100, 101, 100, 61];
    proof {
        assert(r@ =~= q_uploaded_key());
    }
    r
}

/// The bytes of `&downloaded=`.
pub open spec fn q_downloaded_key() -> Seq<u8> {
    seq![38u8, 100, 111, 119, 110, 108, 111, 97, 100, 101, 100, 61]
}

/// `&downloaded=`, as bytes.
pub fn q_downloaded_bytes() -> (r: Vec<u8>)
    ensures
        r@ == q_downloaded_key(),
{
    let r: Vec<u8> = vec![38u8, 100, 111, 119, 110, 108, 111, 97, 100, 101, 100, 61];
    proof {
        assert(r@ =~= q_downloaded_key());
    }
    r
}

/// The bytes of `&left=`.
pub open spec fn q_left_key() -> Seq<u8> {
    seq![38u8, 108, 101, 102, 116, 61]
}

/// `&left=`, as bytes.
pub fn q_left_bytes() -> (r: Vec<u8>)
    ensures
        r@ == q_left_key(),
{
    let r: Vec<u8> = vec![38u8, 108, 101, 102, 116, 61];
    proof {
        assert(r@ =~= q_left_key());
    }
    r
}

/// The bytes of `&compact=1&numwant=50`.
pub open spec fn q_tail_key() -> Seq<u8> {
    seq![38u8, 99, 111, 109, 112, 97, 99, 116, 61, 49, 38, 110, 117, 109, 119, 97, 110, 116, 61, 53, 48]
}

/// `&compact=1&numwant=50`, as bytes.
pub fn q_tail_bytes() -> (r: Vec<u8>)
    ensures
        r@ == q_tail_key(),
{
    let r: Vec<u8> = vec![38u8, 99, 111, 109, 112, 97, 99, 116, 61, 49, 38, 110, 117, 109, 119, 97, 110, 116, 61, 53, 48];
    proof {
        assert(r@ =~= q_tail_key());
    }
    r
}

/// The bytes of `&event=started`.
pub open spec fn ev_started_key() -> Seq<u8> {
    seq![38u8, 101, 118, 101, 110, 116, 61, 115, 116, 97, 114, 116, 101, 100]
}

/// `&event=started`, as bytes.
pub fn ev_started_bytes() -> (r: Vec<u8>)
    ensures
        r@ == ev_started_key(),
{
    let r: Vec<u8> = vec![38u8, 101, 118, 101, 110, 116, 61, 115, 116, 97, 114, 116, 101, 100];
    proof {
        assert(r@ =~= ev_started_key());
    }
    r
}

/// The bytes of `&event=stopped`.
pub open spec fn ev_stopped_key() -> Seq<u8> {
    seq![38u8, 101, 118, 101, 110, 116, 61, 115, 116, 111, 112, 112, 101, 100]
}

/// `&event=stopped`, as bytes.
pub fn ev_stopped_bytes() -> (r: Vec<u8>)
    ensures
        r@ == ev_stopped_key(),
{
    let r: Vec<u8> = vec![38u8, 101, 118, 101, 110, 116, 61, 115, 116, 111, 112, 112, 101, 100];
    proof {
        assert(r@ =~= ev_stopped_key());
    }
    r
}

/// The bytes of `&event=completed`.
pub open spec fn ev_completed_key() -> Seq<u8> {
    seq![38u8, 101, 118, 101, 110, 116, 61, 99, 111, 109, 112, 108, 101, 116, 101, 100]
}

/// `&event=completed`, as bytes.
pub fn ev_completed_bytes() -> (r: Vec<u8>)
    ensures
        r@ == ev_completed_key(),
{
    let r: Vec<u8> = vec![38u8, 101, 118, 101, 110, 116, 61, 99, 111, 109, 112, 108, 101, 116, 101, 100];
    proof {
        assert(r@ =~= ev_completed_key());
    }
    r
}

/// The bytes of `peers6`.
pub open spec fn peers6_key() -> Seq<u8> {
    seq![112u8, 101, 101, 114, 115, 54]
}

/// `peers6`, as bytes.
pub fn peers6_bytes() -> (r: Vec<u8>)
    ensures
        r@ == peers6_key(),
{
    let r: Vec<u8> = vec![112u8, 101, 101, 114, 115, 54];
    proof {
        assert(r@ =~= peers6_key());
    }
    r
}

/// The bytes of `-h`.
pub open spec fn opt_h_key() -> Seq<u8> {
    seq![45u8, 104]
}

/// `-h`, as bytes.
pub fn opt_h_bytes() -> (r: Vec<u8>)
    ensures
        r@ == opt_h_key(),
{
    let r: Vec<u8> = vec![45u8, 104];
    proof {
        assert(r@ =~= opt_h_key());
    }
    r
}

/// The bytes of `--help`.
pub open spec fn opt_help_key() -> Seq<u8> {
    seq![45u8, 45, 104, 101, 108, 112]
}

/// `--help`, as bytes.
pub fn opt_help_bytes() -> (r: Vec<u8>)
    ensures
        r@ == opt_help_key(),
{
    let r: Vec<u8> = vec![45u8, 45, 104, 101, 108, 112];
    proof {
        assert(r@ =~= opt_help_key());
    }
    r
}

/// The bytes of `-v`.
pub open spec fn opt_v_key() -> Seq<u8> {
    seq![45u8, 118]
}

/// `-v`, as bytes.
pub fn opt_v_bytes() -> (r: Vec<u8>)
    ensures
        r@ == opt_v_key(),
{
    let r: Vec<u8> = vec![45u8, 118];
    proof {
        assert(r@ =~= opt_v_key());
    }
    r
}

/// The bytes of `--verbose`.
pub open spec fn opt_verbose_key() -> Seq<u8> {
    seq![45u8, 45, 118, 101, 114, 98, 111, 115, 101]
}

/// `--verbose`, as bytes.
pub fn opt_verbose_bytes() -> (r: Vec<u8>)
    ensures
        r@ == opt_verbose_key(),
{
    let r: Vec<u8> = vec![45u8, 45, 118, 101, 114, 98, 111, 115, 101];
    proof {
        assert(r@ =~= opt_verbose_key());
    }
    r
}

/// The bytes of `-q`.
pub open spec fn opt_q_key() -> Seq<u8> {
    seq![45u8, 113]
}

/// `-q`, as bytes.
pub fn opt_q_bytes() -> (r: Vec<u8>)
    ensures
        r@ == opt_q_key(),
{
    let r: Vec<u8> = vec![45u8, 113];
    proof {
        assert(r@ =~= opt_q_key());
    }
    r
}

/// The bytes of `--quiet`.
pub open spec fn opt_quiet_key() -> Seq<u8> {
    seq![45u8, 45, 113, 117, 105, 101, 116]
}

/// `--quiet`, as bytes.
pub fn opt_quiet_bytes() -> (r: Vec<u8>)
    ensures
        r@ == opt_quiet_key(),
{
    let r: Vec<u8> = vec![45u8, 45, 113, 117, 105, 101, 116];
    proof {
        assert(r@ =~= opt_quiet_key());
    }
    r
}

/// The bytes of `-o`.
pub open spec fn opt_o_key() -> Seq<u8> {
    seq![45u8, 111]
}

/// `-o`, as bytes.
pub fn opt_o_bytes() -> (r: Vec<u8>)
    ensures
        r@ == opt_o_key(),
{
    let r: Vec<u8> = vec![45u8, 111];
    proof {
        assert(r@ =~= opt_o_key());
    }
    r
}

/// The bytes of `--output`.
pub open spec fn opt_output_key() -> Seq<u8> {
    seq![45u8, 45, 111, 117, 116, 112, 117, 116]
}

/// `--output`, as bytes.
pub fn opt_output_bytes() -> (r: Vec<u8>)
    ensures
        r@ == opt_output_key(),
{
    let r: Vec<u8> = vec![45u8, 45, 111, 117, 116, 112, 117, 116];
    proof {
        assert(r@ =~= opt_output_key());
    }
    r
}

/// The bytes of `-p`.
pub open spec fn opt_p_key() -> Seq<u8> {
    seq![45u8, 112]
}

/// `-p`, as bytes.
pub fn opt_p_bytes() -> (r: Vec<u8>)
    ensures
        r@ == opt_p_key(),
{
    let r: Vec<u8> = vec![45u8, 112];
    proof {
        assert(r@ =~= opt_p_key());
    }
    r
}

/// The bytes of `--port`.
pub open spec fn opt_port_key() -> Seq<u8> {
    seq![45u8, 45, 112, 111, 114, 116]
}

/// `--port`, as bytes.
pub fn opt_port_bytes() -> (r: Vec<u8>)
    ensures
        r@ == opt_port_key(),
{
    let r: Vec<u8> = vec![45u8, 45, 112, 111, 114, 116];
    proof {
        assert(r@ =~= opt_port_key());
    }
    r
}

/// The bytes of `--max-peers`.
pub open spec fn opt_max_peers_key() -> Seq<u8> {
    seq![45u8, 45, 109, 97, 120, 45, 112, 101, 101, 114, 115]
}

/// `--max-peers`, as bytes.
pub fn opt_max_peers_bytes() -> (r: Vec<u8>)
    ensures
        r@ == opt_max_peers_key(),
{
    let r: Vec<u8> = vec![45u8, 45, 109, 97, 120, 45, 112, 101, 101, 114, 115];
    proof {
        assert(r@ =~= opt_max_peers_key());
    }
    r
}

/// The bytes of `--metadata-timeout`.
pub open spec fn opt_metadata_timeout_key() -> Seq<u8> {
    seq![45u8, 45, 109, 101, 116, 97, 100, 97, 116, 97, 45, 116, 105, 109, 101, 111, 117, 116]
}

/// `--metadata-timeout`, as bytes.
pub fn opt_metadata_timeout_bytes() -> (r: Vec<u8>)
    ensures
        r@ == opt_metadata_timeout_key(),
{
    let r: Vec<u8> = vec![45u8, 45, 109, 101, 116, 97, 100, 97, 116, 97, 45, 116, 105, 109, 101, 111, 117, 116];
    proof {
        assert(r@ =~= opt_metadata_timeout_key());
    }
    r
}

/// The bytes of `magnet:`.
pub open spec fn magnet_scheme_key() -> Seq<u8> {
    seq![109u8, 97, 103, 110, 101, 116, 58]
}

/// `magnet:`, as bytes.
pub fn magnet_scheme_bytes() -> (r: Vec<u8>)
    ensures
        r@ == magnet_scheme_key(),
{
    let r: Vec<u8> = vec![109u8, 97, 103, 110, 101, 116, 58];
    proof {
        assert(r@ =~= magnet_scheme_key());
    }
    r
}

/// The bytes of `.resume`.
pub open spec fn dot_resume_key() -> Seq<u8> {
    seq![46u8, 114, 101, 115, 117, 109, 101]
}

/// `.resume`, as bytes.
pub fn dot_resume_bytes() -> (r: Vec<u8>)
    ensures
        r@ == dot_resume_key(),
{
    let r: Vec<u8> = vec![46u8, 114, 101, 115, 117, 109, 101];
    proof {
        assert(r@ =~= dot_resume_key());
    }
    r
}

} // verus!
