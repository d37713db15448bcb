//! The Keccak round constants: the literal table checked against the LFSR of
//! FIPS 202, §3.2.5, state by state and bit by bit.
use vstd::prelude::*;
use vstd::arithmetic::power2::pow2;
use crate::keccak::{RC, lfsr_bit, lfsr_round_constants, lfsr_state, rc_partial};

verus! {

/// The LFSR steps and output bits for the first 168 states, evaluated bitwise.
proof fn lemma_lfsr_table()
    by (bit_vector)
    ensures
        (1u8 & 0x80u8) == 0u8 && (1u8 << 1u8) == 2u8 && (1u8 & 1u8) as u64 == 1u64,
        (2u8 & 0x80u8) == 0u8 && (2u8 << 1u8) == 4u8 && (2u8 & 1u8) as u64 == 0u64,
        (4u8 & 0x80u8) == 0u8 && (4u8 << 1u8) == 8u8 && (4u8 & 1u8) as u64 == 0u64,
        (8u8 & 0x80u8) == 0u8 && (8u8 << 1u8) == 16u8 && (8u8 & 1u8) as u64 == 0u64,
        (16u8 & 0x80u8) == 0u8 && (16u8 << 1u8) == 32u8 && (16u8 & 1u8) as u64 == 0u64,
        (32u8 & 0x80u8) == 0u8 && (32u8 << 1u8) == 64u8 && (32u8 & 1u8) as u64 == 0u64,
        (64u8 & 0x80u8) == 0u8 && (64u8 << 1u8) == 128u8 && (64u8 & 1u8) as u64 == 0u64,
        (128u8 & 0x80u8) != 0u8 && ((128u8 << 1u8) ^ 0x71u8) == 113u8 && (128u8 & 1u8) as u64 == 0u64,
        (113u8 & 0x80u8) == 0u8 && (113u8 << 1u8) == 226u8 && (113u8 & 1u8) as u64 == 1u64,
        (226u8 & 0x80u8) != 0u8 && ((226u8 << 1u8) ^ 0x71u8) == 181u8 && (226u8 & 1u8) as u64 == 0u64,
        (181u8 & 0x80u8) != 0u8 && ((181u8 << 1u8) ^ 0x71u8) == 27u8 && (181u8 & 1u8) as u64 == 1u64,
        (27u8 & 0x80u8) == 0u8 && (27u8 << 1u8) == 54u8 && (27u8 & 1u8) as u64 == 1u64,
        (54u8 & 0x80u8) == 0u8 && (54u8 << 1u8) == 108u8 && (54u8 & 1u8) as u64 == 0u64,
        (108u8 & 0x80u8) == 0u8 && (108u8 << 1u8) == 216u8 && (108u8 & 1u8) as u64 == 0u64,
        (216u8 & 0x80u8) != 0u8 && ((216u8 << 1u8) ^ 0x71u8) == 193u8 && (216u8 & 1u8) as u64 == 0u64,
        (193u8 & 0x80u8) != 0u8 && ((193u8 << 1u8) ^ 0x71u8) == 243u8 && (193u8 & 1u8) as u64 == 1u64,
        (243u8 & 0x80u8) != 0u8 && ((243u8 << 1u8) ^ 0x71u8) == 151u8 && (243u8 & 1u8) as u64 == 1u64,
        (151u8 & 0x80u8) != 0u8 && ((151u8 << 1u8) ^ 0x71u8) == 95u8 && (151u8 & 1u8) as u64 == 1u64,
        (95u8 & 0x80u8) == 0u8 && (95u8 << 1u8) == 190u8 && (95u8 & 1u8) as u64 == 1u64,
        (190u8 & 0x80u8) != 0u8 && ((190u8 << 1u8) ^ 0x71u8) == 13u8 && (190u8 & 1u8) as u64 == 0u64,
        (13u8 & 0x80u8) == 0u8 && (13u8 << 1u8) == 26u8 && (13u8 & 1u8) as u64 == 1u64,
        (26u8 & 0x80u8) == 0u8 && (26u8 << 1u8) == 52u8 && (26u8 & 1u8) as u64 == 0u64,
        (52u8 & 0x80u8) == 0u8 && (52u8 << 1u8) == 104u8 && (52u8 & 1u8) as u64 == 0u64,
        (104u8 & 0x80u8) == 0u8 && (104u8 << 1u8) == 208u8 && (104u8 & 1u8) as u64 == 0u64,
        (208u8 & 0x80u8) != 0u8 && ((208u8 << 1u8) ^ 0x71u8) == 209u8 && (208u8 & 1u8) as u64 == 0u64,
        (209u8 & 0x80u8) != 0u8 && ((209u8 << 1u8) ^ 0x71u8) == 211u8 && (209u8 & 1u8) as u64 == 1u64,
        (211u8 & 0x80u8) != 0u8 && ((211u8 << 1u8) ^ 0x71u8) == 215u8 && (211u8 & 1u8) as u64 == 1u64,
        (215u8 & 0x80u8) != 0u8 && ((215u8 << 1u8) ^ 0x71u8) == 223u8 && (215u8 & 1u8) as u64 == 1u64,
        (223u8 & 0x80u8) != 0u8 && ((223u8 << 1u8) ^ 0x71u8) == 207u8 && (223u8 & 1u8) as u64 == 1u64,
        (207u8 & 0x80u8) != 0u8 && ((207u8 << 1u8) ^ 0x71u8) == 239u8 && (207u8 & 1u8) as u64 == 1u64,
        (239u8 & 0x80u8) != 0u8 && ((239u8 << 1u8) ^ 0x71u8) == 175u8 && (239u8 & 1u8) as u64 == 1u64,
        (175u8 & 0x80u8) != 0u8 && ((175u8 << 1u8) ^ 0x71u8) == 47u8 && (175u8 & 1u8) as u64 == 1u64,
        (47u8 & 0x80u8) == 0u8 && (47u8 << 1u8) == 94u8 && (47u8 & 1u8) as u64 == 1u64,
        (94u8 & 0x80u8) == 0u8 && (94u8 << 1u8) == 188u8 && (94u8 & 1u8) as u64 == 0u64,
        (188u8 & 0x80u8) != 0u8 && ((188u8 << 1u8) ^ 0x71u8) == 9u8 && (188u8 & 1u8) as u64 == 0u64,
        (9u8 & 0x80u8) == 0u8 && (9u8 << 1u8) == 18u8 && (9u8 & 1u8) as u64 == 1u64,
        (18u8 & 0x80u8) == 0u8 && (18u8 << 1u8) == 36u8 && (18u8 & 1u8) as u64 == 0u64,
        (36u8 & 0x80u8) == 0u8 && (36u8 << 1u8) == 72u8 && (36u8 & 1u8) as u64 == 0u64,
        (72u8 & 0x80u8) == 0u8 && (72u8 << 1u8) == 144u8 && (72u8 & 1u8) as u64 == 0u64,
        (144u8 & 0x80u8) != 0u8 && ((144u8 << 1u8) ^ 0x71u8) == 81u8 && (144u8 & 1u8) as u64 == 0u64,
        (81u8 & 0x80u8) == 0u8 && (81u8 << 1u8) == 162u8 && (81u8 & 1u8) as u64 == 1u64,
        (162u8 & 0x80u8) != 0u8 && ((162u8 << 1u8) ^ 0x71u8) == 53u8 && (162u8 & 1u8) as u64 == 0u64,
        (53u8 & 0x80u8) == 0u8 && (53u8 << 1u8) == 106u8 && (53u8 & 1u8) as u64 == 1u64,
        (106u8 & 0x80u8) == 0u8 && (106u8 << 1u8) == 212u8 && (106u8 & 1u8) as u64 == 0u64,
        (212u8 & 0x80u8) != 0u8 && ((212u8 << 1u8) ^ 0x71u8) == 217u8 && (212u8 & 1u8) as u64 == 0u64,
        (217u8 & 0x80u8) != 0u8 && ((217u8 << 1u8) ^ 0x71u8) == 195u8 && (217u8 & 1u8) as u64 == 1u64,
        (195u8 & 0x80u8) != 0u8 && ((195u8 << 1u8) ^ 0x71u8) == 247u8 && (195u8 & 1u8) as u64 == 1u64,
        (247u8 & 0x80u8) != 0u8 && ((247u8 << 1u8) ^ 0x71u8) == 159u8 && (247u8 & 1u8) as u64 == 1u64,
        (159u8 & 0x80u8) != 0u8 && ((159u8 << 1u8) ^ 0x71u8) == 79u8 && (159u8 & 1u8) as u64 == 1u64,
        (79u8 & 0x80u8) == 0u8 && (79u8 << 1u8) == 158u8 && (79u8 & 1u8) as u64 == 1u64,
        (158u8 & 0x80u8) != 0u8 && ((158u8 << 1u8) ^ 0x71u8) == 77u8 && (158u8 & 1u8) as u64 == 0u64,
        (77u8 & 0x80u8) == 0u8 && (77u8 << 1u8) == 154u8 && (77u8 & 1u8) as u64 == 1u64,
        (154u8 & 0x80u8) != 0u8 && ((154u8 << 1u8) ^ 0x71u8) == 69u8 && (154u8 & 1u8) as u64 == 0u64,
        (69u8 & 0x80u8) == 0u8 && (69u8 << 1u8) == 138u8 && (69u8 & 1u8) as u64 == 1u64,
        (138u8 & 0x80u8) != 0u8 && ((138u8 << 1u8) ^ 0x71u8) == 101u8 && (138u8 & 1u8) as u64 == 0u64,
        (101u8 & 0x80u8) == 0u8 && (101u8 << 1u8) == 202u8 && (101u8 & 1u8) as u64 == 1u64,
        (202u8 & 0x80u8) != 0u8 && ((202u8 << 1u8) ^ 0x71u8) == 229u8 && (202u8 & 1u8) as u64 == 0u64,
        (229u8 & 0x80u8) != 0u8 && ((229u8 << 1u8) ^ 0x71u8) == 187u8 && (229u8 & 1u8) as u64 == 1u64,
        (187u8 & 0x80u8) != 0u8 && ((187u8 << 1u8) ^ 0x71u8) == 7u8 && (187u8 & 1u8) as u64 == 1u64,
        (7u8 & 0x80u8) == 0u8 && (7u8 << 1u8) == 14u8 && (7u8 & 1u8) as u64 == 1u64,
        (14u8 & 0x80u8) == 0u8 && (14u8 << 1u8) == 28u8 && (14u8 & 1u8) as u64 == 0u64,
        (28u8 & 0x80u8) == 0u8 && (28u8 << 1u8) == 56u8 && (28u8 & 1u8) as u64 == 0u64,
        (56u8 & 0x80u8) == 0u8 && (56u8 << 1u8) == 112u8 && (56u8 & 1u8) as u64 == 0u64,
        (112u8 & 0x80u8) == 0u8 && (112u8 << 1u8) == 224u8 && (112u8 & 1u8) as u64 == 0u64,
        (224u8 & 0x80u8) != 0u8 && ((224u8 << 1u8) ^ 0x71u8) == 177u8 && (224u8 & 1u8) as u64 == 0u64,
        (177u8 & 0x80u8) != 0u8 && ((177u8 << 1u8) ^ 0x71u8) == 19u8 && (177u8 & 1u8) as u64 == 1u64,
        (19u8 & 0x80u8) == 0u8 && (19u8 << 1u8) == 38u8 && (19u8 & 1u8) as u64 == 1u64,
        (38u8 & 0x80u8) == 0u8 && (38u8 << 1u8) == 76u8 && (38u8 & 1u8) as u64 == 0u64,
        (76u8 & 0x80u8) == 0u8 && (76u8 << 1u8) == 152u8 && (76u8 & 1u8) as u64 == 0u64,
        (152u8 & 0x80u8) != 0u8 && ((152u8 << 1u8) ^ 0x71u8) == 65u8 && (152u8 & 1u8) as u64 == 0u64,
        (65u8 & 0x80u8) == 0u8 && (65u8 << 1u8) == 130u8 && (65u8 & 1u8) as u64 == 1u64,
        (130u8 & 0x80u8) != 0u8 && ((130u8 << 1u8) ^ 0x71u8) == 117u8 && (130u8 & 1u8) as u64 == 0u64,
        (117u8 & 0x80u8) == 0u8 && (117u8 << 1u8) == 234u8 && (117u8 & 1u8) as u64 == 1u64,
        (234u8 & 0x80u8) != 0u8 && ((234u8 << 1u8) ^ 0x71u8) == 165u8 && (234u8 & 1u8) as u64 == 0u64,
        (165u8 & 0x80u8) != 0u8 && ((165u8 << 1u8) ^ 0x71u8) == 59u8 && (165u8 & 1u8) as u64 == 1u64,
        (59u8 & 0x80u8) == 0u8 && (59u8 << 1u8) == 118u8 && (59u8 & 1u8) as u64 == 1u64,
        (118u8 & 0x80u8) == 0u8 && (118u8 << 1u8) == 236u8 && (118u8 & 1u8) as u64 == 0u64,
        (236u8 & 0x80u8) != 0u8 && ((236u8 << 1u8) ^ 0x71u8) == 169u8 && (236u8 & 1u8) as u64 == 0u64,
        (169u8 & 0x80u8) != 0u8 && ((169u8 << 1u8) ^ 0x71u8) == 35u8 && (169u8 & 1u8) as u64 == 1u64,
        (35u8 & 0x80u8) == 0u8 && (35u8 << 1u8) == 70u8 && (35u8 & 1u8) as u64 == 1u64,
        (70u8 & 0x80u8) == 0u8 && (70u8 << 1u8) == 140u8 && (70u8 & 1u8) as u64 == 0u64,
        (140u8 & 0x80u8) != 0u8 && ((140u8 << 1u8) ^ 0x71u8) == 105u8 && (140u8 & 1u8) as u64 == 0u64,
        (105u8 & 0x80u8) == 0u8 && (105u8 << 1u8) == 210u8 && (105u8 & 1u8) as u64 == 1u64,
        (210u8 & 0x80u8) != 0u8 && ((210u8 << 1u8) ^ 0x71u8) == 213u8 && (210u8 & 1u8) as u64 == 0u64,
        (213u8 & 0x80u8) != 0u8 && ((213u8 << 1u8) ^ 0x71u8) == 219u8 && (213u8 & 1u8) as u64 == 1u64,
        (219u8 & 0x80u8) != 0u8 && ((219u8 << 1u8) ^ 0x71u8) == 199u8 && (219u8 & 1u8) as u64 == 1u64,
        (199u8 & 0x80u8) != 0u8 && ((199u8 << 1u8) ^ 0x71u8) == 255u8 && (199u8 & 1u8) as u64 == 1u64,
        (255u8 & 0x80u8) != 0u8 && ((255u8 << 1u8) ^ 0x71u8) == 143u8 && (255u8 & 1u8) as u64 == 1u64,
        (143u8 & 0x80u8) != 0u8 && ((143u8 << 1u8) ^ 0x71u8) == 111u8 && (143u8 & 1u8) as u64 == 1u64,
        (111u8 & 0x80u8) == 0u8 && (111u8 << 1u8) == 222u8 && (111u8 & 1u8) as u64 == 1u64,
        (222u8 & 0x80u8) != 0u8 && ((222u8 << 1u8) ^ 0x71u8) == 205u8 && (222u8 & 1u8) as u64 == 0u64,
        (205u8 & 0x80u8) != 0u8 && ((205u8 << 1u8) ^ 0x71u8) == 235u8 && (205u8 & 1u8) as u64 == 1u64,
        (235u8 & 0x80u8) != 0u8 && ((235u8 << 1u8) ^ 0x71u8) == 167u8 && (235u8 & 1u8) as u64 == 1u64,
        (167u8 & 0x80u8) != 0u8 && ((167u8 << 1u8) ^ 0x71u8) == 63u8 && (167u8 & 1u8) as u64 == 1u64,
        (63u8 & 0x80u8) == 0u8 && (63u8 << 1u8) == 126u8 && (63u8 & 1u8) as u64 == 1u64,
        (126u8 & 0x80u8) == 0u8 && (126u8 << 1u8) == 252u8 && (126u8 & 1u8) as u64 == 0u64,
        (252u8 & 0x80u8) != 0u8 && ((252u8 << 1u8) ^ 0x71u8) == 137u8 && (252u8 & 1u8) as u64 == 0u64,
        (137u8 & 0x80u8) != 0u8 && ((137u8 << 1u8) ^ 0x71u8) == 99u8 && (137u8 & 1u8) as u64 == 1u64,
        (99u8 & 0x80u8) == 0u8 && (99u8 << 1u8) == 198u8 && (99u8 & 1u8) as u64 == 1u64,
        (198u8 & 0x80u8) != 0u8 && ((198u8 << 1u8) ^ 0x71u8) == 253u8 && (198u8 & 1u8) as u64 == 0u64,
        (253u8 & 0x80u8) != 0u8 && ((253u8 << 1u8) ^ 0x71u8) == 139u8 && (253u8 & 1u8) as u64 == 1u64,
        (139u8 & 0x80u8) != 0u8 && ((139u8 << 1u8) ^ 0x71u8) == 103u8 && (139u8 & 1u8) as u64 == 1u64,
        (103u8 & 0x80u8) == 0u8 && (103u8 << 1u8) == 206u8 && (103u8 & 1u8) as u64 == 1u64,
        (206u8 & 0x80u8) != 0u8 && ((206u8 << 1u8) ^ 0x71u8) == 237u8 && (206u8 & 1u8) as u64 == 0u64,
        (237u8 & 0x80u8) != 0u8 && ((237u8 << 1u8) ^ 0x71u8) == 171u8 && (237u8 & 1u8) as u64 == 1u64,
        (171u8 & 0x80u8) != 0u8 && ((171u8 << 1u8) ^ 0x71u8) == 39u8 && (171u8 & 1u8) as u64 == 1u64,
        (39u8 & 0x80u8) == 0u8 && (39u8 << 1u8) == 78u8 && (39u8 & 1u8) as u64 == 1u64,
        (78u8 & 0x80u8) == 0u8 && (78u8 << 1u8) == 156u8 && (78u8 & 1u8) as u64 == 0u64,
        (156u8 & 0x80u8) != 0u8 && ((156u8 << 1u8) ^ 0x71u8) == 73u8 && (156u8 & 1u8) as u64 == 0u64,
        (73u8 & 0x80u8) == 0u8 && (73u8 << 1u8) == 146u8 && (73u8 & 1u8) as u64 == 1u64,
        (146u8 & 0x80u8) != 0u8 && ((146u8 << 1u8) ^ 0x71u8) == 85u8 && (146u8 & 1u8) as u64 == 0u64,
        (85u8 & 0x80u8) == 0u8 && (85u8 << 1u8) == 170u8 && (85u8 & 1u8) as u64 == 1u64,
        (170u8 & 0x80u8) != 0u8 && ((170u8 << 1u8) ^ 0x71u8) == 37u8 && (170u8 & 1u8) as u64 == 0u64,
        (37u8 & 0x80u8) == 0u8 && (37u8 << 1u8) == 74u8 && (37u8 & 1u8) as u64 == 1u64,
        (74u8 & 0x80u8) == 0u8 && (74u8 << 1u8) == 148u8 && (74u8 & 1u8) as u64 == 0u64,
        (148u8 & 0x80u8) != 0u8 && ((148u8 << 1u8) ^ 0x71u8) == 89u8 && (148u8 & 1u8) as u64 == 0u64,
        (89u8 & 0x80u8) == 0u8 && (89u8 << 1u8) == 178u8 && (89u8 & 1u8) as u64 == 1u64,
        (178u8 & 0x80u8) != 0u8 && ((178u8 << 1u8) ^ 0x71u8) == 21u8 && (178u8 & 1u8) as u64 == 0u64,
        (21u8 & 0x80u8) == 0u8 && (21u8 << 1u8) == 42u8 && (21u8 & 1u8) as u64 == 1u64,
        (42u8 & 0x80u8) == 0u8 && (42u8 << 1u8) == 84u8 && (42u8 & 1u8) as u64 == 0u64,
        (84u8 & 0x80u8) == 0u8 && (84u8 << 1u8) == 168u8 && (84u8 & 1u8) as u64 == 0u64,
        (168u8 & 0x80u8) != 0u8 && ((168u8 << 1u8) ^ 0x71u8) == 33u8 && (168u8 & 1u8) as u64 == 0u64,
        (33u8 & 0x80u8) == 0u8 && (33u8 << 1u8) == 66u8 && (33u8 & 1u8) as u64 == 1u64,
        (66u8 & 0x80u8) == 0u8 && (66u8 << 1u8) == 132u8 && (66u8 & 1u8) as u64 == 0u64,
        (132u8 & 0x80u8) != 0u8 && ((132u8 << 1u8) ^ 0x71u8) == 121u8 && (132u8 & 1u8) as u64 == 0u64,
        (121u8 & 0x80u8) == 0u8 && (121u8 << 1u8) == 242u8 && (121u8 & 1u8) as u64 == 1u64,
        (242u8 & 0x80u8) != 0u8 && ((242u8 << 1u8) ^ 0x71u8) == 149u8 && (242u8 & 1u8) as u64 == 0u64,
        (149u8 & 0x80u8) != 0u8 && ((149u8 << 1u8) ^ 0x71u8) == 91u8 && (149u8 & 1u8) as u64 == 1u64,
        (91u8 & 0x80u8) == 0u8 && (91u8 << 1u8) == 182u8 && (91u8 & 1u8) as u64 == 1u64,
        (182u8 & 0x80u8) != 0u8 && ((182u8 << 1u8) ^ 0x71u8) == 29u8 && (182u8 & 1u8) as u64 == 0u64,
        (29u8 & 0x80u8) == 0u8 && (29u8 << 1u8) == 58u8 && (29u8 & 1u8) as u64 == 1u64,
        (58u8 & 0x80u8) == 0u8 && (58u8 << 1u8) == 116u8 && (58u8 & 1u8) as u64 == 0u64,
        (116u8 & 0x80u8) == 0u8 && (116u8 << 1u8) == 232u8 && (116u8 & 1u8) as u64 == 0u64,
        (232u8 & 0x80u8) != 0u8 && ((232u8 << 1u8) ^ 0x71u8) == 161u8 && (232u8 & 1u8) as u64 == 0u64,
        (161u8 & 0x80u8) != 0u8 && ((161u8 << 1u8) ^ 0x71u8) == 51u8 && (161u8 & 1u8) as u64 == 1u64,
        (51u8 & 0x80u8) == 0u8 && (51u8 << 1u8) == 102u8 && (51u8 & 1u8) as u64 == 1u64,
        (102u8 & 0x80u8) == 0u8 && (102u8 << 1u8) == 204u8 && (102u8 & 1u8) as u64 == 0u64,
        (204u8 & 0x80u8) != 0u8 && ((204u8 << 1u8) ^ 0x71u8) == 233u8 && (204u8 & 1u8) as u64 == 0u64,
        (233u8 & 0x80u8) != 0u8 && ((233u8 << 1u8) ^ 0x71u8) == 163u8 && (233u8 & 1u8) as u64 == 1u64,
        (163u8 & 0x80u8) != 0u8 && ((163u8 << 1u8) ^ 0x71u8) == 55u8 && (163u8 & 1u8) as u64 == 1u64,
        (55u8 & 0x80u8) == 0u8 && (55u8 << 1u8) == 110u8 && (55u8 & 1u8) as u64 == 1u64,
        (110u8 & 0x80u8) == 0u8 && (110u8 << 1u8) == 220u8 && (110u8 & 1u8) as u64 == 0u64,
        (220u8 & 0x80u8) != 0u8 && ((220u8 << 1u8) ^ 0x71u8) == 201u8 && (220u8 & 1u8) as u64 == 0u64,
        (201u8 & 0x80u8) != 0u8 && ((201u8 << 1u8) ^ 0x71u8) == 227u8 && (201u8 & 1u8) as u64 == 1u64,
        (227u8 & 0x80u8) != 0u8 && ((227u8 << 1u8) ^ 0x71u8) == 183u8 && (227u8 & 1u8) as u64 == 1u64,
        (183u8 & 0x80u8) != 0u8 && ((183u8 << 1u8) ^ 0x71u8) == 31u8 && (183u8 & 1u8) as u64 == 1u64,
        (31u8 & 0x80u8) == 0u8 && (31u8 << 1u8) == 62u8 && (31u8 & 1u8) as u64 == 1u64,
        (62u8 & 0x80u8) == 0u8 && (62u8 << 1u8) == 124u8 && (62u8 & 1u8) as u64 == 0u64,
        (124u8 & 0x80u8) == 0u8 && (124u8 << 1u8) == 248u8 && (124u8 & 1u8) as u64 == 0u64,
        (248u8 & 0x80u8) != 0u8 && ((248u8 << 1u8) ^ 0x71u8) == 129u8 && (248u8 & 1u8) as u64 == 0u64,
        (129u8 & 0x80u8) != 0u8 && ((129u8 << 1u8) ^ 0x71u8) == 115u8 && (129u8 & 1u8) as u64 == 1u64,
        (115u8 & 0x80u8) == 0u8 && (115u8 << 1u8) == 230u8 && (115u8 & 1u8) as u64 == 1u64,
        (230u8 & 0x80u8) != 0u8 && ((230u8 << 1u8) ^ 0x71u8) == 189u8 && (230u8 & 1u8) as u64 == 0u64,
        (189u8 & 0x80u8) != 0u8 && ((189u8 << 1u8) ^ 0x71u8) == 11u8 && (189u8 & 1u8) as u64 == 1u64,
        (11u8 & 0x80u8) == 0u8 && (11u8 << 1u8) == 22u8 && (11u8 & 1u8) as u64 == 1u64,
        (22u8 & 0x80u8) == 0u8 && (22u8 << 1u8) == 44u8 && (22u8 & 1u8) as u64 == 0u64,
        (44u8 & 0x80u8) == 0u8 && (44u8 << 1u8) == 88u8 && (44u8 & 1u8) as u64 == 0u64,
        (88u8 & 0x80u8) == 0u8 && (88u8 << 1u8) == 176u8 && (88u8 & 1u8) as u64 == 0u64,
        (176u8 & 0x80u8) != 0u8 && ((176u8 << 1u8) ^ 0x71u8) == 17u8 && (176u8 & 1u8) as u64 == 0u64,
        (17u8 & 0x80u8) == 0u8 && (17u8 << 1u8) == 34u8 && (17u8 & 1u8) as u64 == 1u64,
        (34u8 & 0x80u8) == 0u8 && (34u8 << 1u8) == 68u8 && (34u8 & 1u8) as u64 == 0u64,
        (68u8 & 0x80u8) == 0u8 && (68u8 << 1u8) == 136u8 && (68u8 & 1u8) as u64 == 0u64,
        (136u8 & 0x80u8) != 0u8 && ((136u8 << 1u8) ^ 0x71u8) == 97u8 && (136u8 & 1u8) as u64 == 0u64,
        (97u8 & 0x80u8) == 0u8 && (97u8 << 1u8) == 194u8 && (97u8 & 1u8) as u64 == 1u64,
        (194u8 & 0x80u8) != 0u8 && ((194u8 << 1u8) ^ 0x71u8) == 245u8 && (194u8 & 1u8) as u64 == 0u64,
        (245u8 & 0x80u8) != 0u8 && ((245u8 << 1u8) ^ 0x71u8) == 155u8 && (245u8 & 1u8) as u64 == 1u64,
        (155u8 & 0x80u8) != 0u8 && ((155u8 << 1u8) ^ 0x71u8) == 71u8 && (155u8 & 1u8) as u64 == 1u64,
        (71u8 & 0x80u8) == 0u8 && (71u8 << 1u8) == 142u8 && (71u8 & 1u8) as u64 == 1u64,
{
}

/// The bits that the LFSR sets in round constants 0 to 5, evaluated bitwise.
proof fn lemma_rc_table_0()
    by (bit_vector)
    ensures
        (0x0u64 ^ (1u64 << 0u64)) == 0x1u64,
        (0x0u64 ^ (1u64 << 1u64)) == 0x2u64,
        (0x2u64 ^ (1u64 << 7u64)) == 0x82u64,
        (0x82u64 ^ (1u64 << 15u64)) == 0x8082u64,
        (0x0u64 ^ (1u64 << 1u64)) == 0x2u64,
        (0x2u64 ^ (1u64 << 3u64)) == 0xau64,
        (0xau64 ^ (1u64 << 7u64)) == 0x8au64,
        (0x8au64 ^ (1u64 << 15u64)) == 0x808au64,
        (0x808au64 ^ (1u64 << 63u64)) == 0x800000000000808au64,
        (0x0u64 ^ (1u64 << 15u64)) == 0x8000u64,
        (0x8000u64 ^ (1u64 << 31u64)) == 0x80008000u64,
        (0x80008000u64 ^ (1u64 << 63u64)) == 0x8000000080008000u64,
        (0x0u64 ^ (1u64 << 0u64)) == 0x1u64,
        (0x1u64 ^ (1u64 << 1u64)) == 0x3u64,
        (0x3u64 ^ (1u64 << 3u64)) == 0xbu64,
        (0xbu64 ^ (1u64 << 7u64)) == 0x8bu64,
        (0x8bu64 ^ (1u64 << 15u64)) == 0x808bu64,
        (0x0u64 ^ (1u64 << 0u64)) == 0x1u64,
        (0x1u64 ^ (1u64 << 31u64)) == 0x80000001u64,
{
}

/// The bits that the LFSR sets in round constants 6 to 11, evaluated bitwise.
proof fn lemma_rc_table_1()
    by (bit_vector)
    ensures
        (0x0u64 ^ (1u64 << 0u64)) == 0x1u64,
        (0x1u64 ^ (1u64 << 7u64)) == 0x81u64,
        (0x81u64 ^ (1u64 << 15u64)) == 0x8081u64,
        (0x8081u64 ^ (1u64 << 31u64)) == 0x80008081u64,
        (0x80008081u64 ^ (1u64 << 63u64)) == 0x8000000080008081u64,
        (0x0u64 ^ (1u64 << 0u64)) == 0x1u64,
        (0x1u64 ^ (1u64 << 3u64)) == 0x9u64,
        (0x9u64 ^ (1u64 << 15u64)) == 0x8009u64,
        (0x8009u64 ^ (1u64 << 63u64)) == 0x8000000000008009u64,
        (0x0u64 ^ (1u64 << 1u64)) == 0x2u64,
        (0x2u64 ^ (1u64 << 3u64)) == 0xau64,
        (0xau64 ^ (1u64 << 7u64)) == 0x8au64,
        (0x0u64 ^ (1u64 << 3u64)) == 0x8u64,
        (0x8u64 ^ (1u64 << 7u64)) == 0x88u64,
        (0x0u64 ^ (1u64 << 0u64)) == 0x1u64,
        (0x1u64 ^ (1u64 << 3u64)) == 0x9u64,
        (0x9u64 ^ (1u64 << 15u64)) == 0x8009u64,
        (0x8009u64 ^ (1u64 << 31u64)) == 0x80008009u64,
        (0x0u64 ^ (1u64 << 1u64)) == 0x2u64,
        (0x2u64 ^ (1u64 << 3u64)) == 0xau64,
        (0xau64 ^ (1u64 << 31u64)) == 0x8000000au64,
{
}

/// The bits that the LFSR sets in round constants 12 to 17, evaluated bitwise.
proof fn lemma_rc_table_2()
    by (bit_vector)
    ensures
        (0x0u64 ^ (1u64 << 0u64)) == 0x1u64,
        (0x1u64 ^ (1u64 << 1u64)) == 0x3u64,
        (0x3u64 ^ (1u64 << 3u64)) == 0xbu64,
        (0xbu64 ^ (1u64 << 7u64)) == 0x8bu64,
        (0x8bu64 ^ (1u64 << 15u64)) == 0x808bu64,
        (0x808bu64 ^ (1u64 << 31u64)) == 0x8000808bu64,
        (0x0u64 ^ (1u64 << 0u64)) == 0x1u64,
        (0x1u64 ^ (1u64 << 1u64)) == 0x3u64,
        (0x3u64 ^ (1u64 << 3u64)) == 0xbu64,
        (0xbu64 ^ (1u64 << 7u64)) == 0x8bu64,
        (0x8bu64 ^ (1u64 << 63u64)) == 0x800000000000008bu64,
        (0x0u64 ^ (1u64 << 0u64)) == 0x1u64,
        (0x1u64 ^ (1u64 << 3u64)) == 0x9u64,
        (0x9u64 ^ (1u64 << 7u64)) == 0x89u64,
        (0x89u64 ^ (1u64 << 15u64)) == 0x8089u64,
        (0x8089u64 ^ (1u64 << 63u64)) == 0x8000000000008089u64,
        (0x0u64 ^ (1u64 << 0u64)) == 0x1u64,
        (0x1u64 ^ (1u64 << 1u64)) == 0x3u64,
        (0x3u64 ^ (1u64 << 15u64)) == 0x8003u64,
        (0x8003u64 ^ (1u64 << 63u64)) == 0x8000000000008003u64,
        (0x0u64 ^ (1u64 << 1u64)) == 0x2u64,
        (0x2u64 ^ (1u64 << 15u64)) == 0x8002u64,
        (0x8002u64 ^ (1u64 << 63u64)) == 0x8000000000008002u64,
        (0x0u64 ^ (1u64 << 7u64)) == 0x80u64,
        (0x80u64 ^ (1u64 << 63u64)) == 0x8000000000000080u64,
{
}

/// The bits that the LFSR sets in round constants 18 to 23, evaluated bitwise.
proof fn lemma_rc_table_3()
    by (bit_vector)
    ensures
        (0x0u64 ^ (1u64 << 1u64)) == 0x2u64,
        (0x2u64 ^ (1u64 << 3u64)) == 0xau64,
        (0xau64 ^ (1u64 << 15u64)) == 0x800au64,
        (0x0u64 ^ (1u64 << 1u64)) == 0x2u64,
        (0x2u64 ^ (1u64 << 3u64)) == 0xau64,
        (0xau64 ^ (1u64 << 31u64)) == 0x8000000au64,
        (0x8000000au64 ^ (1u64 << 63u64)) == 0x800000008000000au64,
        (0x0u64 ^ (1u64 << 0u64)) == 0x1u64,
        (0x1u64 ^ (1u64 << 7u64)) == 0x81u64,
        (0x81u64 ^ (1u64 << 15u64)) == 0x8081u64,
        (0x8081u64 ^ (1u64 << 31u64)) == 0x80008081u64,
        (0x80008081u64 ^ (1u64 << 63u64)) == 0x8000000080008081u64,
        (0x0u64 ^ (1u64 << 7u64)) == 0x80u64,
        (0x80u64 ^ (1u64 << 15u64)) == 0x8080u64,
        (0x8080u64 ^ (1u64 << 63u64)) == 0x8000000000008080u64,
        (0x0u64 ^ (1u64 << 0u64)) == 0x1u64,
        (0x1u64 ^ (1u64 << 31u64)) == 0x80000001u64,
        (0x0u64 ^ (1u64 << 3u64)) == 0x8u64,
        (0x8u64 ^ (1u64 << 15u64)) == 0x8008u64,
        (0x8008u64 ^ (1u64 << 31u64)) == 0x80008008u64,
        (0x80008008u64 ^ (1u64 << 63u64)) == 0x8000000080008008u64,
{
}

proof fn lemma_pow2_below_7()
    ensures
        pow2(0) == 1,
        pow2(1) == 2,
        pow2(2) == 4,
        pow2(3) == 8,
        pow2(4) == 16,
        pow2(5) == 32,
        pow2(6) == 64,
{
    vstd::arithmetic::power2::lemma2_to64();
}

/// LFSR states 1 to 42, and output bits 0 to 41.
proof fn lemma_lfsr_states_0()
    ensures
        lfsr_state(1) == 2u8,
        lfsr_state(2) == 4u8,
        lfsr_state(3) == 8u8,
        lfsr_state(4) == 16u8,
        lfsr_state(5) == 32u8,
        lfsr_state(6) == 64u8,
        lfsr_state(7) == 128u8,
        lfsr_state(8) == 113u8,
        lfsr_state(9) == 226u8,
        lfsr_state(10) == 181u8,
        lfsr_state(11) == 27u8,
        lfsr_state(12) == 54u8,
        lfsr_state(13) == 108u8,
        lfsr_state(14) == 216u8,
        lfsr_state(15) == 193u8,
        lfsr_state(16) == 243u8,
        lfsr_state(17) == 151u8,
        lfsr_state(18) == 95u8,
        lfsr_state(19) == 190u8,
        lfsr_state(20) == 13u8,
        lfsr_state(21) == 26u8,
        lfsr_state(22) == 52u8,
        lfsr_state(23) == 104u8,
        lfsr_state(24) == 208u8,
        lfsr_state(25) == 209u8,
        lfsr_state(26) == 211u8,
        lfsr_state(27) == 215u8,
        lfsr_state(28) == 223u8,
        lfsr_state(29) == 207u8,
        lfsr_state(30) == 239u8,
        lfsr_state(31) == 175u8,
        lfsr_state(32) == 47u8,
        lfsr_state(33) == 94u8,
        lfsr_state(34) == 188u8,
        lfsr_state(35) == 9u8,
        lfsr_state(36) == 18u8,
        lfsr_state(37) == 36u8,
        lfsr_state(38) == 72u8,
        lfsr_state(39) == 144u8,
        lfsr_state(40) == 81u8,
        lfsr_state(41) == 162u8,
        lfsr_state(42) == 53u8,
        lfsr_bit(0) == 1u64,
        lfsr_bit(1) == 0u64,
        lfsr_bit(2) == 0u64,
        lfsr_bit(3) == 0u64,
        lfsr_bit(4) == 0u64,
        lfsr_bit(5) == 0u64,
        lfsr_bit(6) == 0u64,
        lfsr_bit(7) == 0u64,
        lfsr_bit(8) == 1u64,
        lfsr_bit(9) == 0u64,
        lfsr_bit(10) == 1u64,
        lfsr_bit(11) == 1u64,
        lfsr_bit(12) == 0u64,
        lfsr_bit(13) == 0u64,
        lfsr_bit(14) == 0u64,
        lfsr_bit(15) == 1u64,
        lfsr_bit(16) == 1u64,
        lfsr_bit(17) == 1u64,
        lfsr_bit(18) == 1u64,
        lfsr_bit(19) == 0u64,
        lfsr_bit(20) == 1u64,
        lfsr_bit(21) == 0u64,
        lfsr_bit(22) == 0u64,
        lfsr_bit(23) == 0u64,
        lfsr_bit(24) == 0u64,
        lfsr_bit(25) == 1u64,
        lfsr_bit(26) == 1u64,
        lfsr_bit(27) == 1u64,
        lfsr_bit(28) == 1u64,
        lfsr_bit(29) == 1u64,
        lfsr_bit(30) == 1u64,
        lfsr_bit(31) == 1u64,
        lfsr_bit(32) == 1u64,
        lfsr_bit(33) == 0u64,
        lfsr_bit(34) == 0u64,
        lfsr_bit(35) == 1u64,
        lfsr_bit(36) == 0u64,
        lfsr_bit(37) == 0u64,
        lfsr_bit(38) == 0u64,
        lfsr_bit(39) == 0u64,
        lfsr_bit(40) == 1u64,
        lfsr_bit(41) == 0u64,
{
    lemma_lfsr_table();
    assert(lfsr_state(0) == 1u8);
    assert(lfsr_state(1) == 2u8);
    assert(lfsr_state(2) == 4u8);
    assert(lfsr_state(3) == 8u8);
    assert(lfsr_state(4) == 16u8);
    assert(lfsr_state(5) == 32u8);
    assert(lfsr_state(6) == 64u8);
    assert(lfsr_state(7) == 128u8);
    assert(lfsr_state(8) == 113u8);
    assert(lfsr_state(9) == 226u8);
    assert(lfsr_state(10) == 181u8);
    assert(lfsr_state(11) == 27u8);
    assert(lfsr_state(12) == 54u8);
    assert(lfsr_state(13) == 108u8);
    assert(lfsr_state(14) == 216u8);
    assert(lfsr_state(15) == 193u8);
    assert(lfsr_state(16) == 243u8);
    assert(lfsr_state(17) == 151u8);
    assert(lfsr_state(18) == 95u8);
    assert(lfsr_state(19) == 190u8);
    assert(lfsr_state(20) == 13u8);
    assert(lfsr_state(21) == 26u8);
    assert(lfsr_state(22) == 52u8);
    assert(lfsr_state(23) == 104u8);
    assert(lfsr_state(24) == 208u8);
    assert(lfsr_state(25) == 209u8);
    assert(lfsr_state(26) == 211u8);
    assert(lfsr_state(27) == 215u8);
    assert(lfsr_state(28) == 223u8);
    assert(lfsr_state(29) == 207u8);
    assert(lfsr_state(30) == 239u8);
    assert(lfsr_state(31) == 175u8);
    assert(lfsr_state(32) == 47u8);
    assert(lfsr_state(33) == 94u8);
    assert(lfsr_state(34) == 188u8);
    assert(lfsr_state(35) == 9u8);
    assert(lfsr_state(36) == 18u8);
    assert(lfsr_state(37) == 36u8);
    assert(lfsr_state(38) == 72u8);
    assert(lfsr_state(39) == 144u8);
    assert(lfsr_state(40) == 81u8);
    assert(lfsr_state(41) == 162u8);
    assert(lfsr_state(42) == 53u8);
}

/// LFSR states 43 to 84, and output bits 42 to 83.
proof fn lemma_lfsr_states_1()
    ensures
        lfsr_state(43) == 106u8,
        lfsr_state(44) == 212u8,
        lfsr_state(45) == 217u8,
        lfsr_state(46) == 195u8,
        lfsr_state(47) == 247u8,
        lfsr_state(48) == 159u8,
        lfsr_state(49) == 79u8,
        lfsr_state(50) == 158u8,
        lfsr_state(51) == 77u8,
        lfsr_state(52) == 154u8,
        lfsr_state(53) == 69u8,
        lfsr_state(54) == 138u8,
        lfsr_state(55) == 101u8,
        lfsr_state(56) == 202u8,
        lfsr_state(57) == 229u8,
        lfsr_state(58) == 187u8,
        lfsr_state(59) == 7u8,
        lfsr_state(60) == 14u8,
        lfsr_state(61) == 28u8,
        lfsr_state(62) == 56u8,
        lfsr_state(63) == 112u8,
        lfsr_state(64) == 224u8,
        lfsr_state(65) == 177u8,
        lfsr_state(66) == 19u8,
        lfsr_state(67) == 38u8,
        lfsr_state(68) == 76u8,
        lfsr_state(69) == 152u8,
        lfsr_state(70) == 65u8,
        lfsr_state(71) == 130u8,
        lfsr_state(72) == 117u8,
        lfsr_state(73) == 234u8,
        lfsr_state(74) == 165u8,
        lfsr_state(75) == 59u8,
        lfsr_state(76) == 118u8,
        lfsr_state(77) == 236u8,
        lfsr_state(78) == 169u8,
        lfsr_state(79) == 35u8,
        lfsr_state(80) == 70u8,
        lfsr_state(81) == 140u8,
        lfsr_state(82) == 105u8,
        lfsr_state(83) == 210u8,
        lfsr_state(84) == 213u8,
        lfsr_bit(42) == 1u64,
        lfsr_bit(43) == 0u64,
        lfsr_bit(44) == 0u64,
        lfsr_bit(45) == 1u64,
        lfsr_bit(46) == 1u64,
        lfsr_bit(47) == 1u64,
        lfsr_bit(48) == 1u64,
        lfsr_bit(49) == 1u64,
        lfsr_bit(50) == 0u64,
        lfsr_bit(51) == 1u64,
        lfsr_bit(52) == 0u64,
        lfsr_bit(53) == 1u64,
        lfsr_bit(54) == 0u64,
        lfsr_bit(55) == 1u64,
        lfsr_bit(56) == 0u64,
        lfsr_bit(57) == 1u64,
        lfsr_bit(58) == 1u64,
        lfsr_bit(59) == 1u64,
        lfsr_bit(60) == 0u64,
        lfsr_bit(61) == 0u64,
        lfsr_bit(62) == 0u64,
        lfsr_bit(63) == 0u64,
        lfsr_bit(64) == 0u64,
        lfsr_bit(65) == 1u64,
        lfsr_bit(66) == 1u64,
        lfsr_bit(67) == 0u64,
        lfsr_bit(68) == 0u64,
        lfsr_bit(69) == 0u64,
        lfsr_bit(70) == 1u64,
        lfsr_bit(71) == 0u64,
        lfsr_bit(72) == 1u64,
        lfsr_bit(73) == 0u64,
        lfsr_bit(74) == 1u64,
        lfsr_bit(75) == 1u64,
        lfsr_bit(76) == 0u64,
        lfsr_bit(77) == 0u64,
        lfsr_bit(78) == 1u64,
        lfsr_bit(79) == 1u64,
        lfsr_bit(80) == 0u64,
        lfsr_bit(81) == 0u64,
        lfsr_bit(82) == 1u64,
        lfsr_bit(83) == 0u64,
{
    lemma_lfsr_table();
    lemma_lfsr_states_0();
    assert(lfsr_state(43) == 106u8);
    assert(lfsr_state(44) == 212u8);
    assert(lfsr_state(45) == 217u8);
    assert(lfsr_state(46) == 195u8);
    assert(lfsr_state(47) == 247u8);
    assert(lfsr_state(48) == 159u8);
    assert(lfsr_state(49) == 79u8);
    assert(lfsr_state(50) == 158u8);
    assert(lfsr_state(51) == 77u8);
    assert(lfsr_state(52) == 154u8);
    assert(lfsr_state(53) == 69u8);
    assert(lfsr_state(54) == 138u8);
    assert(lfsr_state(55) == 101u8);
    assert(lfsr_state(56) == 202u8);
    assert(lfsr_state(57) == 229u8);
    assert(lfsr_state(58) == 187u8);
    assert(lfsr_state(59) == 7u8);
    assert(lfsr_state(60) == 14u8);
    assert(lfsr_state(61) == 28u8);
    assert(lfsr_state(62) == 56u8);
    assert(lfsr_state(63) == 112u8);
    assert(lfsr_state(64) == 224u8);
    assert(lfsr_state(65) == 177u8);
    assert(lfsr_state(66) == 19u8);
    assert(lfsr_state(67) == 38u8);
    assert(lfsr_state(68) == 76u8);
    assert(lfsr_state(69) == 152u8);
    assert(lfsr_state(70) == 65u8);
    assert(lfsr_state(71) == 130u8);
    assert(lfsr_state(72) == 117u8);
    assert(lfsr_state(73) == 234u8);
    assert(lfsr_state(74) == 165u8);
    assert(lfsr_state(75) == 59u8);
    assert(lfsr_state(76) == 118u8);
    assert(lfsr_state(77) == 236u8);
    assert(lfsr_state(78) == 169u8);
    assert(lfsr_state(79) == 35u8);
    assert(lfsr_state(80) == 70u8);
    assert(lfsr_state(81) == 140u8);
    assert(lfsr_state(82) == 105u8);
    assert(lfsr_state(83) == 210u8);
    assert(lfsr_state(84) == 213u8);
}

/// LFSR states 85 to 126, and output bits 84 to 125.
proof fn lemma_lfsr_states_2()
    ensures
        lfsr_state(85) == 219u8,
        lfsr_state(86) == 199u8,
        lfsr_state(87) == 255u8,
        lfsr_state(88) == 143u8,
        lfsr_state(89) == 111u8,
        lfsr_state(90) == 222u8,
        lfsr_state(91) == 205u8,
        lfsr_state(92) == 235u8,
        lfsr_state(93) == 167u8,
        lfsr_state(94) == 63u8,
        lfsr_state(95) == 126u8,
        lfsr_state(96) == 252u8,
        lfsr_state(97) == 137u8,
        lfsr_state(98) == 99u8,
        lfsr_state(99) == 198u8,
        lfsr_state(100) == 253u8,
        lfsr_state(101) == 139u8,
        lfsr_state(102) == 103u8,
        lfsr_state(103) == 206u8,
        lfsr_state(104) == 237u8,
        lfsr_state(105) == 171u8,
        lfsr_state(106) == 39u8,
        lfsr_state(107) == 78u8,
        lfsr_state(108) == 156u8,
        lfsr_state(109) == 73u8,
        lfsr_state(110) == 146u8,
        lfsr_state(111) == 85u8,
        lfsr_state(112) == 170u8,
        lfsr_state(113) == 37u8,
        lfsr_state(114) == 74u8,
        lfsr_state(115) == 148u8,
        lfsr_state(116) == 89u8,
        lfsr_state(117) == 178u8,
        lfsr_state(118) == 21u8,
        lfsr_state(119) == 42u8,
        lfsr_state(120) == 84u8,
        lfsr_state(121) == 168u8,
        lfsr_state(122) == 33u8,
        lfsr_state(123) == 66u8,
        lfsr_state(124) == 132u8,
        lfsr_state(125) == 121u8,
        lfsr_state(126) == 242u8,
        lfsr_bit(84) == 1u64,
        lfsr_bit(85) == 1u64,
        lfsr_bit(86) == 1u64,
        lfsr_bit(87) == 1u64,
        lfsr_bit(88) == 1u64,
        lfsr_bit(89) == 1u64,
        lfsr_bit(90) == 0u64,
        lfsr_bit(91) == 1u64,
        lfsr_bit(92) == 1u64,
        lfsr_bit(93) == 1u64,
        lfsr_bit(94) == 1u64,
        lfsr_bit(95) == 0u64,
        lfsr_bit(96) == 0u64,
        lfsr_bit(97) == 1u64,
        lfsr_bit(98) == 1u64,
        lfsr_bit(99) == 0u64,
        lfsr_bit(100) == 1u64,
        lfsr_bit(101) == 1u64,
        lfsr_bit(102) == 1u64,
        lfsr_bit(103) == 0u64,
        lfsr_bit(104) == 1u64,
        lfsr_bit(105) == 1u64,
        lfsr_bit(106) == 1u64,
        lfsr_bit(107) == 0u64,
        lfsr_bit(108) == 0u64,
        lfsr_bit(109) == 1u64,
        lfsr_bit(110) == 0u64,
        lfsr_bit(111) == 1u64,
        lfsr_bit(112) == 0u64,
        lfsr_bit(113) == 1u64,
        lfsr_bit(114) == 0u64,
        lfsr_bit(115) == 0u64,
        lfsr_bit(116) == 1u64,
        lfsr_bit(117) == 0u64,
        lfsr_bit(118) == 1u64,
        lfsr_bit(119) == 0u64,
        lfsr_bit(120) == 0u64,
        lfsr_bit(121) == 0u64,
        lfsr_bit(122) == 1u64,
        lfsr_bit(123) == 0u64,
        lfsr_bit(124) == 0u64,
        lfsr_bit(125) == 1u64,
{
    lemma_lfsr_table();
    lemma_lfsr_states_1();
    assert(lfsr_state(85) == 219u8);
    assert(lfsr_state(86) == 199u8);
    assert(lfsr_state(87) == 255u8);
    assert(lfsr_state(88) == 143u8);
    assert(lfsr_state(89) == 111u8);
    assert(lfsr_state(90) == 222u8);
    assert(lfsr_state(91) == 205u8);
    assert(lfsr_state(92) == 235u8);
    assert(lfsr_state(93) == 167u8);
    assert(lfsr_state(94) == 63u8);
    assert(lfsr_state(95) == 126u8);
    assert(lfsr_state(96) == 252u8);
    assert(lfsr_state(97) == 137u8);
    assert(lfsr_state(98) == 99u8);
    assert(lfsr_state(99) == 198u8);
    assert(lfsr_state(100) == 253u8);
    assert(lfsr_state(101) == 139u8);
    assert(lfsr_state(102) == 103u8);
    assert(lfsr_state(103) == 206u8);
    assert(lfsr_state(104) == 237u8);
    assert(lfsr_state(105) == 171u8);
    assert(lfsr_state(106) == 39u8);
    assert(lfsr_state(107) == 78u8);
    assert(lfsr_state(108) == 156u8);
    assert(lfsr_state(109) == 73u8);
    assert(lfsr_state(110) == 146u8);
    assert(lfsr_state(111) == 85u8);
    assert(lfsr_state(112) == 170u8);
    assert(lfsr_state(113) == 37u8);
    assert(lfsr_state(114) == 74u8);
    assert(lfsr_state(115) == 148u8);
    assert(lfsr_state(116) == 89u8);
    assert(lfsr_state(117) == 178u8);
    assert(lfsr_state(118) == 21u8);
    assert(lfsr_state(119) == 42u8);
    assert(lfsr_state(120) == 84u8);
    assert(lfsr_state(121) == 168u8);
    assert(lfsr_state(122) == 33u8);
    assert(lfsr_state(123) == 66u8);
    assert(lfsr_state(124) == 132u8);
    assert(lfsr_state(125) == 121u8);
    assert(lfsr_state(126) == 242u8);
}

/// LFSR states 127 to 168, and output bits 126 to 167.
proof fn lemma_lfsr_states_3()
    ensures
        lfsr_state(127) == 149u8,
        lfsr_state(128) == 91u8,
        lfsr_state(129) == 182u8,
        lfsr_state(130) == 29u8,
        lfsr_state(131) == 58u8,
        lfsr_state(132) == 116u8,
        lfsr_state(133) == 232u8,
        lfsr_state(134) == 161u8,
        lfsr_state(135) == 51u8,
        lfsr_state(136) == 102u8,
        lfsr_state(137) == 204u8,
        lfsr_state(138) == 233u8,
        lfsr_state(139) == 163u8,
        lfsr_state(140) == 55u8,
        lfsr_state(141) == 110u8,
        lfsr_state(142) == 220u8,
        lfsr_state(143) == 201u8,
        lfsr_state(144) == 227u8,
        lfsr_state(145) == 183u8,
        lfsr_state(146) == 31u8,
        lfsr_state(147) == 62u8,
        lfsr_state(148) == 124u8,
        lfsr_state(149) == 248u8,
        lfsr_state(150) == 129u8,
        lfsr_state(151) == 115u8,
        lfsr_state(152) == 230u8,
        lfsr_state(153) == 189u8,
        lfsr_state(154) == 11u8,
        lfsr_state(155) == 22u8,
        lfsr_state(156) == 44u8,
        lfsr_state(157) == 88u8,
        lfsr_state(158) == 176u8,
        lfsr_state(159) == 17u8,
        lfsr_state(160) == 34u8,
        lfsr_state(161) == 68u8,
        lfsr_state(162) == 136u8,
        lfsr_state(163) == 97u8,
        lfsr_state(164) == 194u8,
        lfsr_state(165) == 245u8,
        lfsr_state(166) == 155u8,
        lfsr_state(167) == 71u8,
        lfsr_state(168) == 142u8,
        lfsr_bit(126) == 0u64,
        lfsr_bit(127) == 1u64,
        lfsr_bit(128) == 1u64,
        lfsr_bit(129) == 0u64,
        lfsr_bit(130) == 1u64,
        lfsr_bit(131) == 0u64,
        lfsr_bit(132) == 0u64,
        lfsr_bit(133) == 0u64,
        lfsr_bit(134) == 1u64,
        lfsr_bit(135) == 1u64,
        lfsr_bit(136) == 0u64,
        lfsr_bit(137) == 0u64,
        lfsr_bit(138) == 1u64,
        lfsr_bit(139) == 1u64,
        lfsr_bit(140) == 1u64,
        lfsr_bit(141) == 0u64,
        lfsr_bit(142) == 0u64,
        lfsr_bit(143) == 1u64,
        lfsr_bit(144) == 1u64,
        lfsr_bit(145) == 1u64,
        lfsr_bit(146) == 1u64,
        lfsr_bit(147) == 0u64,
        lfsr_bit(148) == 0u64,
        lfsr_bit(149) == 0u64,
        lfsr_bit(150) == 1u64,
        lfsr_bit(151) == 1u64,
        lfsr_bit(152) == 0u64,
        lfsr_bit(153) == 1u64,
        lfsr_bit(154) == 1u64,
        lfsr_bit(155) == 0u64,
        lfsr_bit(156) == 0u64,
        lfsr_bit(157) == 0u64,
        lfsr_bit(158) == 0u64,
        lfsr_bit(159) == 1u64,
        lfsr_bit(160) == 0u64,
        lfsr_bit(161) == 0u64,
        lfsr_bit(162) == 0u64,
        lfsr_bit(163) == 1u64,
        lfsr_bit(164) == 0u64,
        lfsr_bit(165) == 1u64,
        lfsr_bit(166) == 1u64,
        lfsr_bit(167) == 1u64,
{
    lemma_lfsr_table();
    lemma_lfsr_states_2();
    assert(lfsr_state(127) == 149u8);
    assert(lfsr_state(128) == 91u8);
    assert(lfsr_state(129) == 182u8);
    assert(lfsr_state(130) == 29u8);
    assert(lfsr_state(131) == 58u8);
    assert(lfsr_state(132) == 116u8);
    assert(lfsr_state(133) == 232u8);
    assert(lfsr_state(134) == 161u8);
    assert(lfsr_state(135) == 51u8);
    assert(lfsr_state(136) == 102u8);
    assert(lfsr_state(137) == 204u8);
    assert(lfsr_state(138) == 233u8);
    assert(lfsr_state(139) == 163u8);
    assert(lfsr_state(140) == 55u8);
    assert(lfsr_state(141) == 110u8);
    assert(lfsr_state(142) == 220u8);
    assert(lfsr_state(143) == 201u8);
    assert(lfsr_state(144) == 227u8);
    assert(lfsr_state(145) == 183u8);
    assert(lfsr_state(146) == 31u8);
    assert(lfsr_state(147) == 62u8);
    assert(lfsr_state(148) == 124u8);
    assert(lfsr_state(149) == 248u8);
    assert(lfsr_state(150) == 129u8);
    assert(lfsr_state(151) == 115u8);
    assert(lfsr_state(152) == 230u8);
    assert(lfsr_state(153) == 189u8);
    assert(lfsr_state(154) == 11u8);
    assert(lfsr_state(155) == 22u8);
    assert(lfsr_state(156) == 44u8);
    assert(lfsr_state(157) == 88u8);
    assert(lfsr_state(158) == 176u8);
    assert(lfsr_state(159) == 17u8);
    assert(lfsr_state(160) == 34u8);
    assert(lfsr_state(161) == 68u8);
    assert(lfsr_state(162) == 136u8);
    assert(lfsr_state(163) == 97u8);
    assert(lfsr_state(164) == 194u8);
    assert(lfsr_state(165) == 245u8);
    assert(lfsr_state(166) == 155u8);
    assert(lfsr_state(167) == 71u8);
    assert(lfsr_state(168) == 142u8);
}

/// Round constants 0 to 5 as the LFSR builds them.
proof fn lemma_rc_rows_0()
    ensures
        rc_partial(0, 7) == RC@[0],
        rc_partial(1, 7) == RC@[1],
        rc_partial(2, 7) == RC@[2],
        rc_partial(3, 7) == RC@[3],
        rc_partial(4, 7) == RC@[4],
        rc_partial(5, 7) == RC@[5],
{
    lemma_lfsr_states_0();
    lemma_rc_table_0();
    lemma_pow2_below_7();
    assert(rc_partial(0, 0) == 0u64);
    assert(rc_partial(0, 1) == 0x1u64);
    assert(rc_partial(0, 2) == 0x1u64);
    assert(rc_partial(0, 3) == 0x1u64);
    assert(rc_partial(0, 4) == 0x1u64);
    assert(rc_partial(0, 5) == 0x1u64);
    assert(rc_partial(0, 6) == 0x1u64);
    assert(rc_partial(0, 7) == 0x1u64);
    assert(rc_partial(1, 0) == 0u64);
    assert(rc_partial(1, 1) == 0x0u64);
    assert(rc_partial(1, 2) == 0x2u64);
    assert(rc_partial(1, 3) == 0x2u64);
    assert(rc_partial(1, 4) == 0x82u64);
    assert(rc_partial(1, 5) == 0x8082u64);
    assert(rc_partial(1, 6) == 0x8082u64);
    assert(rc_partial(1, 7) == 0x8082u64);
    assert(rc_partial(2, 0) == 0u64);
    assert(rc_partial(2, 1) == 0x0u64);
    assert(rc_partial(2, 2) == 0x2u64);
    assert(rc_partial(2, 3) == 0xau64);
    assert(rc_partial(2, 4) == 0x8au64);
    assert(rc_partial(2, 5) == 0x808au64);
    assert(rc_partial(2, 6) == 0x808au64);
    assert(rc_partial(2, 7) == 0x800000000000808au64);
    assert(rc_partial(3, 0) == 0u64);
    assert(rc_partial(3, 1) == 0x0u64);
    assert(rc_partial(3, 2) == 0x0u64);
    assert(rc_partial(3, 3) == 0x0u64);
    assert(rc_partial(3, 4) == 0x0u64);
    assert(rc_partial(3, 5) == 0x8000u64);
    assert(rc_partial(3, 6) == 0x80008000u64);
    assert(rc_partial(3, 7) == 0x8000000080008000u64);
    assert(rc_partial(4, 0) == 0u64);
    assert(rc_partial(4, 1) == 0x1u64);
    assert(rc_partial(4, 2) == 0x3u64);
    assert(rc_partial(4, 3) == 0xbu64);
    assert(rc_partial(4, 4) == 0x8bu64);
    assert(rc_partial(4, 5) == 0x808bu64);
    assert(rc_partial(4, 6) == 0x808bu64);
    assert(rc_partial(4, 7) == 0x808bu64);
    assert(rc_partial(5, 0) == 0u64);
    assert(rc_partial(5, 1) == 0x1u64);
    assert(rc_partial(5, 2) == 0x1u64);
    assert(rc_partial(5, 3) == 0x1u64);
    assert(rc_partial(5, 4) == 0x1u64);
    assert(rc_partial(5, 5) == 0x1u64);
    assert(rc_partial(5, 6) == 0x80000001u64);
    assert(rc_partial(5, 7) == 0x80000001u64);
}

/// Round constants 6 to 11 as the LFSR builds them.
proof fn lemma_rc_rows_1()
    ensures
        rc_partial(6, 7) == RC@[6],
        rc_partial(7, 7) == RC@[7],
        rc_partial(8, 7) == RC@[8],
        rc_partial(9, 7) == RC@[9],
        rc_partial(10, 7) == RC@[10],
        rc_partial(11, 7) == RC@[11],
{
    lemma_lfsr_states_1();
    lemma_rc_table_1();
    lemma_pow2_below_7();
    assert(rc_partial(6, 0) == 0u64);
    assert(rc_partial(6, 1) == 0x1u64);
    assert(rc_partial(6, 2) == 0x1u64);
    assert(rc_partial(6, 3) == 0x1u64);
    assert(rc_partial(6, 4) == 0x81u64);
    assert(rc_partial(6, 5) == 0x8081u64);
    assert(rc_partial(6, 6) == 0x80008081u64);
    assert(rc_partial(6, 7) == 0x8000000080008081u64);
    assert(rc_partial(7, 0) == 0u64);
    assert(rc_partial(7, 1) == 0x1u64);
    assert(rc_partial(7, 2) == 0x1u64);
    assert(rc_partial(7, 3) == 0x9u64);
    assert(rc_partial(7, 4) == 0x9u64);
    assert(rc_partial(7, 5) == 0x8009u64);
    assert(rc_partial(7, 6) == 0x8009u64);
    assert(rc_partial(7, 7) == 0x8000000000008009u64);
    assert(rc_partial(8, 0) == 0u64);
    assert(rc_partial(8, 1) == 0x0u64);
    assert(rc_partial(8, 2) == 0x2u64);
    assert(rc_partial(8, 3) == 0xau64);
    assert(rc_partial(8, 4) == 0x8au64);
    assert(rc_partial(8, 5) == 0x8au64);
    assert(rc_partial(8, 6) == 0x8au64);
    assert(rc_partial(8, 7) == 0x8au64);
    assert(rc_partial(9, 0) == 0u64);
    assert(rc_partial(9, 1) == 0x0u64);
    assert(rc_partial(9, 2) == 0x0u64);
    assert(rc_partial(9, 3) == 0x8u64);
    assert(rc_partial(9, 4) == 0x88u64);
    assert(rc_partial(9, 5) == 0x88u64);
    assert(rc_partial(9, 6) == 0x88u64);
    assert(rc_partial(9, 7) == 0x88u64);
    assert(rc_partial(10, 0) == 0u64);
    assert(rc_partial(10, 1) == 0x1u64);
    assert(rc_partial(10, 2) == 0x1u64);
    assert(rc_partial(10, 3) == 0x9u64);
    assert(rc_partial(10, 4) == 0x9u64);
    assert(rc_partial(10, 5) == 0x8009u64);
    assert(rc_partial(10, 6) == 0x80008009u64);
    assert(rc_partial(10, 7) == 0x80008009u64);
    assert(rc_partial(11, 0) == 0u64);
    assert(rc_partial(11, 1) == 0x0u64);
    assert(rc_partial(11, 2) == 0x2u64);
    assert(rc_partial(11, 3) == 0xau64);
    assert(rc_partial(11, 4) == 0xau64);
    assert(rc_partial(11, 5) == 0xau64);
    assert(rc_partial(11, 6) == 0x8000000au64);
    assert(rc_partial(11, 7) == 0x8000000au64);
}

/// Round constants 12 to 17 as the LFSR builds them.
proof fn lemma_rc_rows_2()
    ensures
        rc_partial(12, 7) == RC@[12],
        rc_partial(13, 7) == RC@[13],
        rc_partial(14, 7) == RC@[14],
        rc_partial(15, 7) == RC@[15],
        rc_partial(16, 7) == RC@[16],
        rc_partial(17, 7) == RC@[17],
{
    lemma_lfsr_states_2();
    lemma_rc_table_2();
    lemma_pow2_below_7();
    assert(rc_partial(12, 0) == 0u64);
    assert(rc_partial(12, 1) == 0x1u64);
    assert(rc_partial(12, 2) == 0x3u64);
    assert(rc_partial(12, 3) == 0xbu64);
    assert(rc_partial(12, 4) == 0x8bu64);
    assert(rc_partial(12, 5) == 0x808bu64);
    assert(rc_partial(12, 6) == 0x8000808bu64);
    assert(rc_partial(12, 7) == 0x8000808bu64);
    assert(rc_partial(13, 0) == 0u64);
    assert(rc_partial(13, 1) == 0x1u64);
    assert(rc_partial(13, 2) == 0x3u64);
    assert(rc_partial(13, 3) == 0xbu64);
    assert(rc_partial(13, 4) == 0x8bu64);
    assert(rc_partial(13, 5) == 0x8bu64);
    assert(rc_partial(13, 6) == 0x8bu64);
    assert(rc_partial(13, 7) == 0x800000000000008bu64);
    assert(rc_partial(14, 0) == 0u64);
    assert(rc_partial(14, 1) == 0x1u64);
    assert(rc_partial(14, 2) == 0x1u64);
    assert(rc_partial(14, 3) == 0x9u64);
    assert(rc_partial(14, 4) == 0x89u64);
    assert(rc_partial(14, 5) == 0x8089u64);
    assert(rc_partial(14, 6) == 0x8089u64);
    assert(rc_partial(14, 7) == 0x8000000000008089u64);
    assert(rc_partial(15, 0) == 0u64);
    assert(rc_partial(15, 1) == 0x1u64);
    assert(rc_partial(15, 2) == 0x3u64);
    assert(rc_partial(15, 3) == 0x3u64);
    assert(rc_partial(15, 4) == 0x3u64);
    assert(rc_partial(15, 5) == 0x8003u64);
    assert(rc_partial(15, 6) == 0x8003u64);
    assert(rc_partial(15, 7) == 0x8000000000008003u64);
    assert(rc_partial(16, 0) == 0u64);
    assert(rc_partial(16, 1) == 0x0u64);
    assert(rc_partial(16, 2) == 0x2u64);
    assert(rc_partial(16, 3) == 0x2u64);
    assert(rc_partial(16, 4) == 0x2u64);
    assert(rc_partial(16, 5) == 0x8002u64);
    assert(rc_partial(16, 6) == 0x8002u64);
    assert(rc_partial(16, 7) == 0x8000000000008002u64);
    assert(rc_partial(17, 0) == 0u64);
    assert(rc_partial(17, 1) == 0x0u64);
    assert(rc_partial(17, 2) == 0x0u64);
    assert(rc_partial(17, 3) == 0x0u64);
    assert(rc_partial(17, 4) == 0x80u64);
    assert(rc_partial(17, 5) == 0x80u64);
    assert(rc_partial(17, 6) == 0x80u64);
    assert(rc_partial(17, 7) == 0x8000000000000080u64);
}

/// Round constants 18 to 23 as the LFSR builds them.
proof fn lemma_rc_rows_3()
    ensures
        rc_partial(18, 7) == RC@[18],
        rc_partial(19, 7) == RC@[19],
        rc_partial(20, 7) == RC@[20],
        rc_partial(21, 7) == RC@[21],
        rc_partial(22, 7) == RC@[22],
        rc_partial(23, 7) == RC@[23],
{
    lemma_lfsr_states_3();
    lemma_rc_table_3();
    lemma_pow2_below_7();
    assert(rc_partial(18, 0) == 0u64);
    assert(rc_partial(18, 1) == 0x0u64);
    assert(rc_partial(18, 2) == 0x2u64);
    assert(rc_partial(18, 3) == 0xau64);
    assert(rc_partial(18, 4) == 0xau64);
    assert(rc_partial(18, 5) == 0x800au64);
    assert(rc_partial(18, 6) == 0x800au64);
    assert(rc_partial(18, 7) == 0x800au64);
    assert(rc_partial(19, 0) == 0u64);
    assert(rc_partial(19, 1) == 0x0u64);
    assert(rc_partial(19, 2) == 0x2u64);
    assert(rc_partial(19, 3) == 0xau64);
    assert(rc_partial(19, 4) == 0xau64);
    assert(rc_partial(19, 5) == 0xau64);
    assert(rc_partial(19, 6) == 0x8000000au64);
    assert(rc_partial(19, 7) == 0x800000008000000au64);
    assert(rc_partial(20, 0) == 0u64);
    assert(rc_partial(20, 1) == 0x1u64);
    assert(rc_partial(20, 2) == 0x1u64);
    assert(rc_partial(20, 3) == 0x1u64);
    assert(rc_partial(20, 4) == 0x81u64);
    assert(rc_partial(20, 5) == 0x8081u64);
    assert(rc_partial(20, 6) == 0x80008081u64);
    assert(rc_partial(20, 7) == 0x8000000080008081u64);
    assert(rc_partial(21, 0) == 0u64);
    assert(rc_partial(21, 1) == 0x0u64);
    assert(rc_partial(21, 2) == 0x0u64);
    assert(rc_partial(21, 3) == 0x0u64);
    assert(rc_partial(21, 4) == 0x80u64);
    assert(rc_partial(21, 5) == 0x8080u64);
    assert(rc_partial(21, 6) == 0x8080u64);
    assert(rc_partial(21, 7) == 0x8000000000008080u64);
    assert(rc_partial(22, 0) == 0u64);
    assert(rc_partial(22, 1) == 0x1u64);
    assert(rc_partial(22, 2) == 0x1u64);
    assert(rc_partial(22, 3) == 0x1u64);
    assert(rc_partial(22, 4) == 0x1u64);
    assert(rc_partial(22, 5) == 0x1u64);
    assert(rc_partial(22, 6) == 0x80000001u64);
    assert(rc_partial(22, 7) == 0x80000001u64);
    assert(rc_partial(23, 0) == 0u64);
    assert(rc_partial(23, 1) == 0x0u64);
    assert(rc_partial(23, 2) == 0x0u64);
    assert(rc_partial(23, 3) == 0x8u64);
    assert(rc_partial(23, 4) == 0x8u64);
    assert(rc_partial(23, 5) == 0x8008u64);
    assert(rc_partial(23, 6) == 0x80008008u64);
    assert(rc_partial(23, 7) == 0x8000000080008008u64);
}

/// The literal table `RC` is the one that the LFSR of FIPS 202, §3.2.5 generates.
pub proof fn lemma_rc_matches_lfsr()
    ensures
        RC@ == lfsr_round_constants(),
{
    lemma_rc_rows_0();
    lemma_rc_rows_1();
    lemma_rc_rows_2();
    lemma_rc_rows_3();
    assert(RC@ =~= lfsr_round_constants());
}

} // verus!
