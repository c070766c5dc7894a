use vstd::prelude::*;
use crate::indexer::TickArrayHelper;
use crate::indexer::spec_floor_align;

verus! {

/// Address and bump that solana's program-derived-address search yields
/// for the given seeds and program id. The search is a deterministic
/// function of the seeds and program id alone, so its whole outcome can be
/// named; `None` is the outcome where no valid address exists for these
/// seeds or the seeds exceed the allowed number or length.
pub uninterp spec fn program_address_of(seeds: Seq<Seq<u8>>, program: Seq<u8>) -> Option<
    (Seq<u8>, u8),
>;

/// Relies on solana_sdk's `Pubkey::try_find_program_address`: a
/// deterministic search over hashes of the seeds, a bump byte and the
/// program id, with no dependence on anything but its arguments, and no
/// panic (seed-limit violations surface as `None`).
#[verifier::external_body]
fn derive_program_address(seeds: &Vec<Vec<u8>>, program_id: &[u8; 32]) -> (r: Option<
    ([u8; 32], u8),
>)
    ensures
        (match r {
            Option::Some(p) => program_address_of(seeds.deep_view(), program_id@)
                == Option::Some((p.0@, p.1)),
            Option::None => program_address_of(seeds.deep_view(), program_id@) is None,
        }),
{
    let seed_refs: Vec<&[u8]> = seeds.iter().map(|s| s.as_slice()).collect();
    let pid = solana_sdk::pubkey::Pubkey::new_from_array(*program_id);
    solana_sdk::pubkey::Pubkey::try_find_program_address(&seed_refs, &pid).map(
        |p: (solana_sdk::pubkey::Pubkey, u8)| (p.0.to_bytes(), p.1),
    )
}

/// The seed tag of a tick-array record: the bytes of `tick_array`.
pub open spec fn spec_tick_array_seed() -> Seq<u8> {
    seq![116u8, 105u8, 99u8, 107u8, 95u8, 97u8, 114u8, 114u8, 97u8, 121u8]
}

/// The seed tag of the bitmap-extension record: the bytes of
/// `pool_tick_array_bitmap_extension`.
pub open spec fn spec_bitmap_extension_seed() -> Seq<u8> {
    seq![112u8, 111u8, 111u8, 108u8, 95u8, 116u8, 105u8, 99u8, 107u8, 95u8, 97u8, 114u8, 114u8, 97u8, 121u8, 95u8, 98u8, 105u8, 116u8, 109u8, 97u8, 112u8, 95u8, 101u8, 120u8, 116u8, 101u8, 110u8, 115u8, 105u8, 111u8, 110u8]
}

/// Big-endian byte encoding of a tick index, as the record seeds use it.
pub open spec fn spec_i32_be_bytes(x: i32) -> Seq<u8> {
    seq![
        ((x as u32) >> 24u32) as u8,
        ((x as u32) >> 16u32) as u8,
        ((x as u32) >> 8u32) as u8,
        (x as u32) as u8,
    ]
}

fn tick_array_seed() -> (r: Vec<u8>)
    ensures
        r@ == spec_tick_array_seed(),
{
    let mut v: Vec<u8> = Vec::new();
    v.push(116);
    v.push(105);
    v.push(99);
    v.push(107);
    v.push(95);
    v.push(97);
    v.push(114);
    v.push(114);
    v.push(97);
    v.push(121);
    proof {
        assert(v@ =~= spec_tick_array_seed());
    }
    v
}

fn bitmap_extension_seed() -> (r: Vec<u8>)
    ensures
        r@ == spec_bitmap_extension_seed(),
{
    let mut v: Vec<u8> = Vec::new();
    v.push(112);
    v.push(111);
    v.push(111);
    v.push(108);
    v.push(95);
    v.push(116);
    v.push(105);
    v.push(99);
    v.push(107);
    v.push(95);
    v.push(97);
    v.push(114);
    v.push(114);
    v.push(97);
    v.push(121);
    v.push(95);
    v.push(98);
    v.push(105);
    v.push(116);
    v.push(109);
    v.push(97);
    v.push(112);
    v.push(95);
    v.push(101);
    v.push(120);
    v.push(116);
    v.push(101);
    v.push(110);
    v.push(115);
    v.push(105);
    v.push(111);
    v.push(110);
    proof {
        assert(v@ =~= spec_bitmap_extension_seed());
    }
    v
}

fn i32_be_bytes(x: i32) -> (r: Vec<u8>)
    ensures
        r@ == spec_i32_be_bytes(x),
{
    let u = x as u32;
    let mut v: Vec<u8> = Vec::new();
    v.push((u >> 24u32) as u8);
    v.push((u >> 16u32) as u8);
    v.push((u >> 8u32) as u8);
    v.push(u as u8);
    proof {
        assert(v@ =~= spec_i32_be_bytes(x));
    }
    v
}

impl TickArrayHelper {
    /// Derives the deterministic address of the tick-array record that
    /// owns `tick_index`: the seeds are the record tag, the pool address,
    /// and the owning array's start index in big-endian bytes.
    pub fn derive_tick_array_address(
        &self,
        pool: &[u8; 32],
        program_id: &[u8; 32],
        tick_index: i32,
    ) -> (r: Option<([u8; 32], u8)>)
        requires
            self.wf(),
            tick_index >= i32::MIN + self.spec_tpa() - 1,
        ensures
            ({
                let start = spec_floor_align(tick_index as int, self.spec_tpa());
                let seeds = seq![
                    spec_tick_array_seed(),
                    pool@,
                    spec_i32_be_bytes(start as i32),
                ];
                match r {
                    Option::Some(p) => program_address_of(seeds, program_id@) == Option::Some(
                        (p.0@, p.1),
                    ),
                    Option::None => program_address_of(seeds, program_id@) is None,
                }
            }),
    {
        let start = self.get_array_start_index(tick_index);
        let mut seeds: Vec<Vec<u8>> = Vec::new();
        seeds.push(tick_array_seed());
        seeds.push(vstd::slice::slice_to_vec(pool.as_slice()));
        seeds.push(i32_be_bytes(start));
        proof {
            assert(seeds.deep_view() =~~= seq![
                spec_tick_array_seed(),
                pool@,
                spec_i32_be_bytes(start),
            ]);
        }
        derive_program_address(&seeds, program_id)
    }
}

/// Derives the deterministic address of a pool's bitmap-extension record:
/// the seeds are the record tag and the pool address.
pub fn derive_bitmap_extension_address(pool: &[u8; 32], program_id: &[u8; 32]) -> (r: Option<
    ([u8; 32], u8),
>)
    ensures
        ({
            let seeds = seq![spec_bitmap_extension_seed(), pool@];
            match r {
                Option::Some(p) => program_address_of(seeds, program_id@) == Option::Some(
                    (p.0@, p.1),
                ),
                Option::None => program_address_of(seeds, program_id@) is None,
            }
        }),
{
    let mut seeds: Vec<Vec<u8>> = Vec::new();
    seeds.push(bitmap_extension_seed());
    seeds.push(vstd::slice::slice_to_vec(pool.as_slice()));
    proof {
        assert(seeds.deep_view() =~~= seq![spec_bitmap_extension_seed(), pool@]);
    }
    derive_program_address(&seeds, program_id)
}

} // verus!
