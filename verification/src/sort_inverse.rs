//! Where each codec bit is sent: the inverses of the payload orders, and with
//! them that every order is a permutation.

use vstd::prelude::*;
use crate::sort_tables::{
    is_permutation, lemma_order_660, lemma_order_885, lemma_order_1265, lemma_order_1425,
    lemma_order_1585, lemma_order_1825, lemma_order_1985, lemma_order_2305, lemma_order_2385,
    lemma_order_sid, order_of, SORT_660, SORT_885, SORT_1265, SORT_1425, SORT_1585, SORT_1825,
    SORT_1985, SORT_2305, SORT_2385, SORT_SID,
};

verus! {

/// The place of each codec bit in the payload at 6.60 kbit/s.
pub const PLACE_660: [u16; 132] = [
    0, 31, 38, 32, 11, 1, 2, 3, 10, 70, 72, 71, 73, 52, 58, 64, 65, 51, 48, 43, 49, 50, 44, 45, 59,
    60, 61, 62, 63, 76, 77, 78, 79, 81, 80, 82, 83, 12, 13, 14, 15, 27, 28, 54, 66, 84, 92, 100,
    108, 116, 124, 85, 96, 104, 112, 120, 128, 33, 16, 37, 20, 4, 8, 39, 46, 56, 68, 74, 86, 93,
    101, 109, 117, 125, 87, 97, 105, 113, 121, 129, 29, 17, 35, 21, 5, 9, 42, 47, 53, 55, 67, 88,
    94, 102, 110, 118, 126, 89, 98, 106, 114, 122, 130, 34, 18, 36, 22, 6, 24, 40, 41, 57, 69, 75,
    90, 95, 103, 111, 119, 127, 91, 99, 107, 115, 123, 131, 30, 19, 26, 23, 7, 25,
];

/// The place of each codec bit in the payload at 8.85 kbit/s.
pub const PLACE_885: [u16; 177] = [
    0, 40, 39, 5, 1, 4, 2, 3, 59, 66, 53, 68, 46, 52, 54, 60, 50, 47, 48, 44, 49, 45, 57, 56, 55,
    51, 58, 74, 73, 79, 82, 63, 81, 67, 77, 78, 86, 85, 88, 87, 89, 92, 93, 94, 95, 96, 80, 6, 7, 8,
    36, 38, 61, 71, 83, 97, 113, 129, 145, 161, 98, 117, 133, 149, 165, 99, 121, 137, 153, 169, 100,
    125, 141, 157, 173, 12, 32, 20, 24, 28, 16, 41, 64, 69, 75, 90, 101, 114, 130, 146, 162, 102,
    118, 134, 150, 166, 103, 122, 138, 154, 170, 104, 126, 142, 158, 174, 13, 33, 21, 25, 29, 17, 9,
    10, 11, 37, 42, 62, 72, 84, 105, 115, 131, 147, 163, 106, 119, 135, 151, 167, 107, 123, 139,
    155, 171, 108, 127, 143, 159, 175, 14, 34, 22, 26, 30, 18, 43, 65, 70, 76, 91, 109, 116, 132,
    148, 164, 110, 120, 136, 152, 168, 111, 124, 140, 156, 172, 112, 128, 144, 160, 176, 15, 35, 23,
    27, 31, 19,
];

/// The place of each codec bit in the payload at 12.65 kbit/s.
pub const PLACE_1265: [u16; 253] = [
    0, 48, 47, 9, 1, 8, 2, 7, 67, 74, 61, 76, 54, 60, 62, 68, 58, 55, 56, 52, 57, 53, 65, 64, 63,
    59, 66, 82, 81, 87, 90, 71, 89, 75, 85, 86, 94, 93, 96, 95, 97, 100, 101, 102, 103, 104, 88, 10,
    11, 12, 13, 14, 46, 69, 79, 91, 105, 109, 125, 157, 189, 221, 129, 161, 193, 225, 110, 133, 165,
    197, 229, 137, 169, 201, 233, 111, 141, 173, 205, 237, 145, 177, 209, 241, 112, 149, 181, 213,
    245, 153, 185, 217, 249, 3, 20, 42, 28, 32, 38, 24, 36, 49, 72, 77, 83, 98, 106, 113, 126, 158,
    190, 222, 130, 162, 194, 226, 114, 134, 166, 198, 230, 138, 170, 202, 234, 115, 142, 174, 206,
    238, 146, 178, 210, 242, 116, 150, 182, 214, 246, 154, 186, 218, 250, 4, 21, 43, 29, 33, 39, 25,
    15, 16, 17, 18, 19, 51, 70, 80, 92, 107, 117, 127, 159, 191, 223, 131, 163, 195, 227, 118, 135,
    167, 199, 231, 139, 171, 203, 235, 119, 143, 175, 207, 239, 147, 179, 211, 243, 120, 151, 183,
    215, 247, 155, 187, 219, 251, 5, 22, 44, 30, 34, 40, 26, 37, 50, 73, 78, 84, 99, 108, 121, 128,
    160, 192, 224, 132, 164, 196, 228, 122, 136, 168, 200, 232, 140, 172, 204, 236, 123, 144, 176,
    208, 240, 148, 180, 212, 244, 124, 152, 184, 216, 248, 156, 188, 220, 252, 6, 23, 45, 31, 35,
    41, 27,
];

/// The place of each codec bit in the payload at 14.25 kbit/s.
pub const PLACE_1425: [u16; 285] = [
    0, 48, 47, 9, 1, 8, 2, 7, 67, 74, 61, 76, 54, 60, 62, 68, 58, 55, 56, 52, 57, 53, 65, 64, 63,
    59, 66, 82, 81, 87, 90, 71, 89, 75, 85, 86, 94, 93, 96, 95, 97, 100, 101, 102, 103, 104, 88, 10,
    11, 12, 13, 14, 46, 69, 79, 91, 105, 117, 189, 213, 237, 261, 109, 121, 165, 173, 193, 217, 241,
    265, 125, 197, 221, 245, 269, 113, 129, 169, 177, 201, 225, 249, 273, 133, 141, 149, 157, 181,
    205, 229, 253, 277, 137, 145, 153, 161, 185, 209, 233, 257, 281, 3, 20, 42, 28, 32, 38, 24, 36,
    49, 72, 77, 83, 98, 106, 118, 190, 214, 238, 262, 110, 122, 166, 174, 194, 218, 242, 266, 126,
    198, 222, 246, 270, 114, 130, 170, 178, 202, 226, 250, 274, 134, 142, 150, 158, 182, 206, 230,
    254, 278, 138, 146, 154, 162, 186, 210, 234, 258, 282, 4, 21, 43, 29, 33, 39, 25, 15, 16, 17,
    18, 19, 51, 70, 80, 92, 107, 119, 191, 215, 239, 263, 111, 123, 167, 175, 195, 219, 243, 267,
    127, 199, 223, 247, 271, 115, 131, 171, 179, 203, 227, 251, 275, 135, 143, 151, 159, 183, 207,
    231, 255, 279, 139, 147, 155, 163, 187, 211, 235, 259, 283, 5, 22, 44, 30, 34, 40, 26, 37, 50,
    73, 78, 84, 99, 108, 120, 192, 216, 240, 264, 112, 124, 168, 176, 196, 220, 244, 268, 128, 200,
    224, 248, 272, 116, 132, 172, 180, 204, 228, 252, 276, 136, 144, 152, 160, 184, 208, 232, 256,
    280, 140, 148, 156, 164, 188, 212, 236, 260, 284, 6, 23, 45, 31, 35, 41, 27,
];

/// The place of each codec bit in the payload at 15.85 kbit/s.
pub const PLACE_1585: [u16; 317] = [
    0, 48, 47, 9, 1, 8, 2, 7, 67, 74, 61, 76, 54, 60, 62, 68, 58, 55, 56, 52, 57, 53, 65, 64, 63,
    59, 66, 82, 81, 87, 90, 71, 89, 75, 85, 86, 94, 93, 96, 95, 97, 100, 101, 102, 103, 104, 88, 10,
    11, 12, 13, 14, 46, 69, 79, 91, 105, 125, 157, 173, 221, 269, 141, 109, 177, 225, 273, 181, 229,
    277, 129, 161, 185, 233, 281, 145, 113, 189, 237, 285, 193, 241, 289, 133, 165, 197, 245, 293,
    149, 117, 201, 249, 297, 205, 253, 301, 137, 169, 209, 257, 305, 153, 121, 213, 261, 309, 217,
    265, 313, 3, 20, 42, 28, 32, 38, 24, 36, 49, 72, 77, 83, 98, 106, 126, 158, 174, 222, 270, 142,
    110, 178, 226, 274, 182, 230, 278, 130, 162, 186, 234, 282, 146, 114, 190, 238, 286, 194, 242,
    290, 134, 166, 198, 246, 294, 150, 118, 202, 250, 298, 206, 254, 302, 138, 170, 210, 258, 306,
    154, 122, 214, 262, 310, 218, 266, 314, 4, 21, 43, 29, 33, 39, 25, 15, 16, 17, 18, 19, 51, 70,
    80, 92, 107, 127, 159, 175, 223, 271, 143, 111, 179, 227, 275, 183, 231, 279, 131, 163, 187,
    235, 283, 147, 115, 191, 239, 287, 195, 243, 291, 135, 167, 199, 247, 295, 151, 119, 203, 251,
    299, 207, 255, 303, 139, 171, 211, 259, 307, 155, 123, 215, 263, 311, 219, 267, 315, 5, 22, 44,
    30, 34, 40, 26, 37, 50, 73, 78, 84, 99, 108, 128, 160, 176, 224, 272, 144, 112, 180, 228, 276,
    184, 232, 280, 132, 164, 188, 236, 284, 148, 116, 192, 240, 288, 196, 244, 292, 136, 168, 200,
    248, 296, 152, 120, 204, 252, 300, 208, 256, 304, 140, 172, 212, 260, 308, 156, 124, 216, 264,
    312, 220, 268, 316, 6, 23, 45, 31, 35, 41, 27,
];

/// The place of each codec bit in the payload at 18.25 kbit/s.
pub const PLACE_1825: [u16; 365] = [
    0, 48, 47, 9, 1, 8, 2, 7, 67, 74, 61, 76, 54, 60, 62, 68, 58, 55, 56, 52, 57, 53, 65, 64, 63,
    59, 66, 82, 81, 87, 90, 71, 89, 75, 85, 86, 94, 93, 96, 95, 97, 100, 101, 102, 103, 104, 88, 10,
    11, 12, 13, 14, 46, 69, 79, 91, 105, 123, 116, 145, 114, 134, 117, 126, 132, 166, 262, 336, 192,
    182, 296, 203, 170, 175, 259, 274, 308, 341, 135, 197, 281, 348, 217, 209, 315, 235, 159, 161,
    245, 283, 307, 351, 137, 174, 278, 358, 205, 186, 304, 247, 207, 172, 258, 306, 303, 350, 133,
    193, 276, 346, 188, 164, 285, 198, 196, 168, 237, 270, 294, 335, 112, 3, 20, 42, 28, 32, 38, 24,
    36, 49, 72, 77, 83, 98, 106, 140, 111, 128, 113, 119, 120, 139, 138, 180, 275, 339, 230, 216,
    326, 236, 185, 177, 264, 305, 316, 359, 122, 158, 271, 334, 239, 214, 324, 224, 162, 184, 272,
    293, 319, 360, 129, 160, 266, 338, 202, 194, 301, 231, 167, 173, 260, 287, 314, 354, 147, 204,
    279, 337, 228, 199, 300, 238, 171, 176, 263, 284, 321, 356, 109, 4, 21, 43, 29, 33, 39, 25, 15,
    16, 17, 18, 19, 51, 70, 80, 92, 107, 151, 127, 154, 124, 150, 141, 131, 157, 246, 312, 362, 251,
    250, 332, 249, 225, 219, 256, 282, 317, 363, 155, 240, 292, 340, 254, 253, 331, 268, 195, 200,
    267, 311, 323, 355, 153, 213, 299, 347, 244, 234, 330, 241, 201, 220, 269, 313, 328, 364, 152,
    232, 309, 361, 218, 229, 302, 252, 191, 181, 261, 291, 310, 349, 115, 5, 22, 44, 30, 34, 40, 26,
    37, 50, 73, 78, 84, 99, 108, 136, 121, 142, 125, 146, 110, 130, 143, 165, 280, 342, 243, 226,
    325, 221, 179, 189, 257, 277, 295, 344, 149, 211, 289, 353, 255, 227, 329, 208, 169, 183, 265,
    290, 298, 357, 148, 190, 320, 343, 212, 210, 318, 242, 178, 187, 248, 286, 322, 345, 144, 206,
    288, 352, 223, 215, 327, 233, 163, 156, 222, 273, 297, 333, 118, 6, 23, 45, 31, 35, 41, 27,
];

/// The place of each codec bit in the payload at 19.85 kbit/s.
pub const PLACE_1985: [u16; 397] = [
    0, 48, 47, 9, 1, 8, 2, 7, 67, 74, 61, 76, 54, 60, 62, 68, 58, 55, 56, 52, 57, 53, 65, 64, 63,
    59, 66, 82, 81, 87, 90, 71, 89, 75, 85, 86, 94, 93, 96, 95, 97, 100, 101, 102, 103, 104, 88, 10,
    11, 12, 13, 14, 46, 69, 79, 91, 105, 129, 158, 256, 337, 392, 157, 109, 182, 314, 270, 135, 160,
    265, 344, 390, 167, 110, 210, 334, 260, 124, 148, 132, 136, 349, 113, 173, 206, 303, 375, 253,
    283, 338, 384, 350, 111, 161, 195, 286, 369, 245, 266, 320, 385, 138, 172, 292, 363, 226, 213,
    307, 227, 201, 207, 261, 288, 318, 366, 151, 187, 285, 361, 222, 223, 306, 221, 198, 177, 242,
    280, 299, 360, 3, 20, 42, 28, 32, 38, 24, 36, 49, 72, 77, 83, 98, 106, 140, 174, 268, 347, 386,
    164, 115, 186, 336, 267, 127, 166, 254, 340, 394, 159, 117, 225, 329, 296, 122, 141, 119, 134,
    346, 125, 165, 204, 295, 371, 273, 277, 319, 382, 354, 121, 162, 209, 301, 365, 251, 259, 326,
    381, 145, 192, 269, 356, 212, 179, 282, 246, 196, 193, 244, 276, 324, 368, 137, 184, 263, 358,
    215, 219, 317, 234, 185, 211, 248, 311, 313, 372, 4, 21, 43, 29, 33, 39, 25, 15, 16, 17, 18, 19,
    51, 70, 80, 92, 107, 152, 175, 297, 355, 396, 181, 131, 190, 333, 281, 153, 178, 291, 353, 395,
    183, 130, 236, 332, 275, 133, 154, 123, 143, 357, 126, 197, 241, 325, 380, 279, 278, 331, 393,
    352, 139, 189, 235, 330, 383, 293, 298, 341, 388, 156, 228, 312, 374, 250, 249, 345, 255, 231,
    232, 247, 290, 316, 376, 155, 214, 302, 370, 230, 208, 321, 240, 194, 191, 239, 294, 305, 362,
    5, 22, 44, 30, 34, 40, 26, 37, 50, 73, 78, 84, 99, 108, 147, 163, 271, 339, 387, 176, 114, 202,
    343, 258, 149, 169, 262, 328, 391, 170, 118, 188, 327, 272, 120, 144, 112, 142, 359, 128, 171,
    233, 309, 378, 257, 264, 335, 377, 348, 116, 180, 220, 310, 379, 274, 289, 342, 389, 150, 199,
    308, 373, 237, 216, 323, 243, 205, 203, 252, 300, 322, 367, 146, 218, 304, 364, 229, 217, 315,
    224, 200, 168, 238, 287, 284, 351, 6, 23, 45, 31, 35, 41, 27,
];

/// The place of each codec bit in the payload at 23.05 kbit/s.
pub const PLACE_2305: [u16; 461] = [
    0, 48, 47, 9, 1, 8, 2, 7, 67, 74, 61, 76, 54, 60, 62, 68, 58, 55, 56, 52, 57, 53, 65, 64, 63,
    59, 66, 82, 81, 87, 90, 71, 89, 75, 85, 86, 94, 93, 96, 95, 97, 100, 101, 102, 103, 104, 88, 10,
    11, 12, 13, 14, 46, 69, 79, 91, 105, 113, 134, 132, 158, 173, 285, 301, 213, 184, 354, 314, 121,
    149, 128, 162, 188, 278, 350, 288, 171, 341, 339, 112, 142, 138, 160, 215, 311, 361, 263, 182,
    340, 335, 115, 133, 127, 161, 185, 251, 304, 232, 170, 336, 313, 242, 179, 337, 431, 260, 274,
    269, 379, 393, 416, 447, 221, 200, 360, 437, 206, 247, 276, 364, 392, 420, 451, 277, 187, 347,
    430, 245, 203, 257, 362, 405, 424, 456, 218, 176, 342, 432, 244, 223, 252, 357, 385, 412, 457,
    3, 20, 42, 28, 32, 38, 24, 36, 49, 72, 77, 83, 98, 106, 116, 139, 137, 166, 225, 292, 344, 236,
    178, 290, 305, 111, 141, 131, 165, 212, 316, 348, 238, 183, 327, 334, 109, 129, 122, 157, 202,
    268, 309, 219, 190, 333, 302, 110, 147, 125, 159, 208, 297, 345, 249, 181, 312, 318, 266, 186,
    377, 439, 279, 227, 256, 376, 401, 417, 450, 281, 201, 382, 441, 229, 217, 270, 375, 403, 423,
    449, 240, 196, 353, 442, 231, 235, 306, 338, 368, 415, 454, 230, 199, 352, 435, 253, 261, 293,
    386, 407, 419, 455, 4, 21, 43, 29, 33, 39, 25, 15, 16, 17, 18, 19, 51, 70, 80, 92, 107, 140,
    151, 150, 174, 237, 320, 396, 300, 243, 355, 380, 120, 155, 153, 172, 224, 307, 394, 356, 258,
    372, 328, 124, 156, 154, 198, 246, 365, 391, 324, 233, 399, 366, 117, 148, 126, 168, 195, 330,
    370, 296, 191, 358, 325, 264, 204, 390, 445, 308, 275, 329, 402, 411, 428, 460, 273, 207, 387,
    440, 291, 295, 303, 404, 408, 426, 459, 319, 209, 398, 438, 272, 298, 317, 384, 413, 429, 453,
    287, 189, 383, 434, 267, 259, 248, 363, 409, 422, 446, 5, 22, 44, 30, 34, 40, 26, 37, 50, 73,
    78, 84, 99, 108, 119, 152, 136, 163, 210, 286, 331, 283, 175, 351, 322, 118, 145, 146, 180, 192,
    315, 323, 282, 234, 367, 343, 123, 143, 144, 169, 214, 321, 346, 255, 193, 369, 332, 114, 135,
    130, 164, 205, 299, 371, 310, 197, 388, 326, 254, 177, 359, 427, 250, 271, 294, 410, 400, 421,
    458, 280, 211, 374, 443, 216, 241, 222, 349, 397, 406, 452, 220, 194, 381, 436, 226, 262, 284,
    395, 414, 425, 448, 239, 167, 373, 433, 228, 265, 289, 378, 389, 418, 444, 6, 23, 45, 31, 35,
    41, 27,
];

/// The place of each codec bit in the payload at 23.85 kbit/s.
pub const PLACE_2385: [u16; 477] = [
    0, 48, 47, 9, 1, 8, 2, 7, 67, 90, 61, 92, 54, 60, 62, 68, 58, 55, 56, 52, 57, 53, 65, 64, 63,
    59, 66, 98, 97, 103, 106, 71, 105, 91, 101, 102, 110, 109, 112, 111, 113, 116, 117, 118, 119,
    120, 104, 10, 11, 12, 13, 14, 46, 69, 95, 107, 121, 129, 150, 148, 174, 189, 301, 317, 229, 200,
    370, 330, 137, 165, 144, 178, 204, 294, 366, 304, 187, 357, 355, 128, 158, 154, 176, 231, 327,
    377, 279, 198, 356, 351, 131, 149, 143, 177, 201, 267, 320, 248, 186, 352, 329, 258, 195, 353,
    447, 276, 290, 285, 395, 409, 432, 463, 237, 216, 376, 453, 222, 263, 292, 380, 408, 436, 467,
    293, 203, 363, 446, 261, 219, 273, 378, 421, 440, 472, 234, 192, 358, 448, 260, 239, 268, 373,
    401, 428, 473, 3, 20, 42, 28, 32, 38, 24, 72, 73, 74, 75, 36, 49, 88, 93, 99, 114, 122, 132,
    155, 153, 182, 241, 308, 360, 252, 194, 306, 321, 127, 157, 147, 181, 228, 332, 364, 254, 199,
    343, 350, 125, 145, 138, 173, 218, 284, 325, 235, 206, 349, 318, 126, 163, 141, 175, 224, 313,
    361, 265, 197, 328, 334, 282, 202, 393, 455, 295, 243, 272, 392, 417, 433, 466, 297, 217, 398,
    457, 245, 233, 286, 391, 419, 439, 465, 256, 212, 369, 458, 247, 251, 322, 354, 384, 431, 470,
    246, 215, 368, 451, 269, 277, 309, 402, 423, 435, 471, 4, 21, 43, 29, 33, 39, 25, 76, 77, 78,
    79, 15, 16, 17, 18, 19, 51, 70, 96, 108, 123, 156, 167, 166, 190, 253, 336, 412, 316, 259, 371,
    396, 136, 171, 169, 188, 240, 323, 410, 372, 274, 388, 344, 140, 172, 170, 214, 262, 381, 407,
    340, 249, 415, 382, 133, 164, 142, 184, 211, 346, 386, 312, 207, 374, 341, 280, 220, 406, 461,
    324, 291, 345, 418, 427, 444, 476, 289, 223, 403, 456, 307, 311, 319, 420, 424, 442, 475, 335,
    225, 414, 454, 288, 314, 333, 400, 429, 445, 469, 303, 205, 399, 450, 283, 275, 264, 379, 425,
    438, 462, 5, 22, 44, 30, 34, 40, 26, 80, 81, 82, 83, 37, 50, 89, 94, 100, 115, 124, 135, 168,
    152, 179, 226, 302, 347, 299, 191, 367, 338, 134, 161, 162, 196, 208, 331, 339, 298, 250, 383,
    359, 139, 159, 160, 185, 230, 337, 362, 271, 209, 385, 348, 130, 151, 146, 180, 221, 315, 387,
    326, 213, 404, 342, 270, 193, 375, 443, 266, 287, 310, 426, 416, 437, 474, 296, 227, 390, 459,
    232, 257, 238, 365, 413, 422, 468, 236, 210, 397, 452, 242, 278, 300, 411, 430, 441, 464, 255,
    183, 389, 449, 244, 281, 305, 394, 405, 434, 460, 6, 23, 45, 31, 35, 41, 27, 84, 85, 86, 87,
];

/// The place of each codec bit in the comfort-noise payload.
pub const PLACE_SID: [u16; 35] = [
    0, 1, 2, 3, 4, 5, 6, 7, 8, 9, 10, 11, 12, 13, 14, 15, 16, 17, 18, 19, 20, 21, 22, 23, 24, 25,
    26, 27, 28, 29, 30, 31, 32, 33, 34,
];

/// Whether the first `n` entries of an order are undone by `places`.
pub open spec fn undone(order: Seq<u16>, places: Seq<u16>, n: int) -> bool
    decreases n,
{
    n <= 0 || (undone(order, places, n - 1) && order[n - 1] < order.len() && places[order[n - 1] as int] == n - 1)
}

/// What is undone entry by entry is undone everywhere.
proof fn lemma_undone(order: Seq<u16>, places: Seq<u16>, n: int)
    requires
        undone(order, places, n),
    ensures
        forall|i: int|
            0 <= i < n ==> #[trigger] order[i] < order.len() && places[order[i] as int] == i,
    decreases n,
{
    if n > 0 {
        lemma_undone(order, places, n - 1);
    }
}

/// An order with an inverse is a permutation.
proof fn lemma_permutation(order: Seq<u16>, places: Seq<u16>)
    requires
        undone(order, places, order.len() as int),
    ensures
        is_permutation(order),
{
    lemma_undone(order, places, order.len() as int);
}

proof fn lemma_660()
    ensures
        is_permutation(order_of(0)),
{
    lemma_order_660();
    reveal_with_fuel(undone, 41);
    assert(undone(SORT_660@, PLACE_660@, 40));
    assert(undone(SORT_660@, PLACE_660@, 80));
    assert(undone(SORT_660@, PLACE_660@, 120));
    assert(undone(SORT_660@, PLACE_660@, 132));
    lemma_permutation(SORT_660@, PLACE_660@);
}

proof fn lemma_885()
    ensures
        is_permutation(order_of(1)),
{
    lemma_order_885();
    reveal_with_fuel(undone, 41);
    assert(undone(SORT_885@, PLACE_885@, 40));
    assert(undone(SORT_885@, PLACE_885@, 80));
    assert(undone(SORT_885@, PLACE_885@, 120));
    assert(undone(SORT_885@, PLACE_885@, 160));
    assert(undone(SORT_885@, PLACE_885@, 177));
    lemma_permutation(SORT_885@, PLACE_885@);
}

proof fn lemma_1265()
    ensures
        is_permutation(order_of(2)),
{
    lemma_order_1265();
    reveal_with_fuel(undone, 41);
    assert(undone(SORT_1265@, PLACE_1265@, 40));
    assert(undone(SORT_1265@, PLACE_1265@, 80));
    assert(undone(SORT_1265@, PLACE_1265@, 120));
    assert(undone(SORT_1265@, PLACE_1265@, 160));
    assert(undone(SORT_1265@, PLACE_1265@, 200));
    assert(undone(SORT_1265@, PLACE_1265@, 240));
    assert(undone(SORT_1265@, PLACE_1265@, 253));
    lemma_permutation(SORT_1265@, PLACE_1265@);
}

proof fn lemma_1425()
    ensures
        is_permutation(order_of(3)),
{
    lemma_order_1425();
    reveal_with_fuel(undone, 41);
    assert(undone(SORT_1425@, PLACE_1425@, 40));
    assert(undone(SORT_1425@, PLACE_1425@, 80));
    assert(undone(SORT_1425@, PLACE_1425@, 120));
    assert(undone(SORT_1425@, PLACE_1425@, 160));
    assert(undone(SORT_1425@, PLACE_1425@, 200));
    assert(undone(SORT_1425@, PLACE_1425@, 240));
    assert(undone(SORT_1425@, PLACE_1425@, 280));
    assert(undone(SORT_1425@, PLACE_1425@, 285));
    lemma_permutation(SORT_1425@, PLACE_1425@);
}

proof fn lemma_1585()
    ensures
        is_permutation(order_of(4)),
{
    lemma_order_1585();
    reveal_with_fuel(undone, 41);
    assert(undone(SORT_1585@, PLACE_1585@, 40));
    assert(undone(SORT_1585@, PLACE_1585@, 80));
    assert(undone(SORT_1585@, PLACE_1585@, 120));
    assert(undone(SORT_1585@, PLACE_1585@, 160));
    assert(undone(SORT_1585@, PLACE_1585@, 200));
    assert(undone(SORT_1585@, PLACE_1585@, 240));
    assert(undone(SORT_1585@, PLACE_1585@, 280));
    assert(undone(SORT_1585@, PLACE_1585@, 317));
    lemma_permutation(SORT_1585@, PLACE_1585@);
}

proof fn lemma_1825()
    ensures
        is_permutation(order_of(5)),
{
    lemma_order_1825();
    reveal_with_fuel(undone, 41);
    assert(undone(SORT_1825@, PLACE_1825@, 40));
    assert(undone(SORT_1825@, PLACE_1825@, 80));
    assert(undone(SORT_1825@, PLACE_1825@, 120));
    assert(undone(SORT_1825@, PLACE_1825@, 160));
    assert(undone(SORT_1825@, PLACE_1825@, 200));
    assert(undone(SORT_1825@, PLACE_1825@, 240));
    assert(undone(SORT_1825@, PLACE_1825@, 280));
    assert(undone(SORT_1825@, PLACE_1825@, 320));
    assert(undone(SORT_1825@, PLACE_1825@, 360));
    assert(undone(SORT_1825@, PLACE_1825@, 365));
    lemma_permutation(SORT_1825@, PLACE_1825@);
}

proof fn lemma_1985()
    ensures
        is_permutation(order_of(6)),
{
    lemma_order_1985();
    reveal_with_fuel(undone, 41);
    assert(undone(SORT_1985@, PLACE_1985@, 40));
    assert(undone(SORT_1985@, PLACE_1985@, 80));
    assert(undone(SORT_1985@, PLACE_1985@, 120));
    assert(undone(SORT_1985@, PLACE_1985@, 160));
    assert(undone(SORT_1985@, PLACE_1985@, 200));
    assert(undone(SORT_1985@, PLACE_1985@, 240));
    assert(undone(SORT_1985@, PLACE_1985@, 280));
    assert(undone(SORT_1985@, PLACE_1985@, 320));
    assert(undone(SORT_1985@, PLACE_1985@, 360));
    assert(undone(SORT_1985@, PLACE_1985@, 397));
    lemma_permutation(SORT_1985@, PLACE_1985@);
}

proof fn lemma_2305()
    ensures
        is_permutation(order_of(7)),
{
    lemma_order_2305();
    reveal_with_fuel(undone, 41);
    assert(undone(SORT_2305@, PLACE_2305@, 40));
    assert(undone(SORT_2305@, PLACE_2305@, 80));
    assert(undone(SORT_2305@, PLACE_2305@, 120));
    assert(undone(SORT_2305@, PLACE_2305@, 160));
    assert(undone(SORT_2305@, PLACE_2305@, 200));
    assert(undone(SORT_2305@, PLACE_2305@, 240));
    assert(undone(SORT_2305@, PLACE_2305@, 280));
    assert(undone(SORT_2305@, PLACE_2305@, 320));
    assert(undone(SORT_2305@, PLACE_2305@, 360));
    assert(undone(SORT_2305@, PLACE_2305@, 400));
    assert(undone(SORT_2305@, PLACE_2305@, 440));
    assert(undone(SORT_2305@, PLACE_2305@, 461));
    lemma_permutation(SORT_2305@, PLACE_2305@);
}

proof fn lemma_2385()
    ensures
        is_permutation(order_of(8)),
{
    lemma_order_2385();
    reveal_with_fuel(undone, 41);
    assert(undone(SORT_2385@, PLACE_2385@, 40));
    assert(undone(SORT_2385@, PLACE_2385@, 80));
    assert(undone(SORT_2385@, PLACE_2385@, 120));
    assert(undone(SORT_2385@, PLACE_2385@, 160));
    assert(undone(SORT_2385@, PLACE_2385@, 200));
    assert(undone(SORT_2385@, PLACE_2385@, 240));
    assert(undone(SORT_2385@, PLACE_2385@, 280));
    assert(undone(SORT_2385@, PLACE_2385@, 320));
    assert(undone(SORT_2385@, PLACE_2385@, 360));
    assert(undone(SORT_2385@, PLACE_2385@, 400));
    assert(undone(SORT_2385@, PLACE_2385@, 440));
    assert(undone(SORT_2385@, PLACE_2385@, 477));
    lemma_permutation(SORT_2385@, PLACE_2385@);
}

proof fn lemma_sid()
    ensures
        is_permutation(order_of(9)),
{
    lemma_order_sid();
    reveal_with_fuel(undone, 41);
    assert(undone(SORT_SID@, PLACE_SID@, 35));
    lemma_permutation(SORT_SID@, PLACE_SID@);
}

/// Every payload order sends each codec bit exactly once.
pub proof fn law_orders_are_permutations(index: int)
    requires
        0 <= index <= 9,
    ensures
        is_permutation(order_of(index)),
{
    if index == 0 {
        lemma_660();
    } else if index == 1 {
        lemma_885();
    } else if index == 2 {
        lemma_1265();
    } else if index == 3 {
        lemma_1425();
    } else if index == 4 {
        lemma_1585();
    } else if index == 5 {
        lemma_1825();
    } else if index == 6 {
        lemma_1985();
    } else if index == 7 {
        lemma_2305();
    } else if index == 8 {
        lemma_2385();
    } else {
        lemma_sid();
    }
}

} // verus!
