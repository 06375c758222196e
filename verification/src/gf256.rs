use vstd::prelude::*;

verus! {

/// The powers of the primitive element: entry `i` is `alpha^i` reduced modulo
/// `x^8 + x^4 + x^3 + x^2 + 1`, for `i` below 255. The powers repeat from there.
#[verifier::opaque]
pub open spec fn exp_entry(i: u8) -> u8 {
    match i {
        0 => 1, 1 => 2, 2 => 4, 3 => 8, 4 => 16, 5 => 32, 6 => 64, 7 => 128,
        8 => 29, 9 => 58, 10 => 116, 11 => 232, 12 => 205, 13 => 135, 14 => 19, 15 => 38,
        16 => 76, 17 => 152, 18 => 45, 19 => 90, 20 => 180, 21 => 117, 22 => 234, 23 => 201,
        24 => 143, 25 => 3, 26 => 6, 27 => 12, 28 => 24, 29 => 48, 30 => 96, 31 => 192,
        32 => 157, 33 => 39, 34 => 78, 35 => 156, 36 => 37, 37 => 74, 38 => 148, 39 => 53,
        40 => 106, 41 => 212, 42 => 181, 43 => 119, 44 => 238, 45 => 193, 46 => 159, 47 => 35,
        48 => 70, 49 => 140, 50 => 5, 51 => 10, 52 => 20, 53 => 40, 54 => 80, 55 => 160,
        56 => 93, 57 => 186, 58 => 105, 59 => 210, 60 => 185, 61 => 111, 62 => 222, 63 => 161,
        64 => 95, 65 => 190, 66 => 97, 67 => 194, 68 => 153, 69 => 47, 70 => 94, 71 => 188,
        72 => 101, 73 => 202, 74 => 137, 75 => 15, 76 => 30, 77 => 60, 78 => 120, 79 => 240,
        80 => 253, 81 => 231, 82 => 211, 83 => 187, 84 => 107, 85 => 214, 86 => 177, 87 => 127,
        88 => 254, 89 => 225, 90 => 223, 91 => 163, 92 => 91, 93 => 182, 94 => 113, 95 => 226,
        96 => 217, 97 => 175, 98 => 67, 99 => 134, 100 => 17, 101 => 34, 102 => 68, 103 => 136,
        104 => 13, 105 => 26, 106 => 52, 107 => 104, 108 => 208, 109 => 189, 110 => 103, 111 => 206,
        112 => 129, 113 => 31, 114 => 62, 115 => 124, 116 => 248, 117 => 237, 118 => 199, 119 => 147,
        120 => 59, 121 => 118, 122 => 236, 123 => 197, 124 => 151, 125 => 51, 126 => 102, 127 => 204,
        128 => 133, 129 => 23, 130 => 46, 131 => 92, 132 => 184, 133 => 109, 134 => 218, 135 => 169,
        136 => 79, 137 => 158, 138 => 33, 139 => 66, 140 => 132, 141 => 21, 142 => 42, 143 => 84,
        144 => 168, 145 => 77, 146 => 154, 147 => 41, 148 => 82, 149 => 164, 150 => 85, 151 => 170,
        152 => 73, 153 => 146, 154 => 57, 155 => 114, 156 => 228, 157 => 213, 158 => 183, 159 => 115,
        160 => 230, 161 => 209, 162 => 191, 163 => 99, 164 => 198, 165 => 145, 166 => 63, 167 => 126,
        168 => 252, 169 => 229, 170 => 215, 171 => 179, 172 => 123, 173 => 246, 174 => 241, 175 => 255,
        176 => 227, 177 => 219, 178 => 171, 179 => 75, 180 => 150, 181 => 49, 182 => 98, 183 => 196,
        184 => 149, 185 => 55, 186 => 110, 187 => 220, 188 => 165, 189 => 87, 190 => 174, 191 => 65,
        192 => 130, 193 => 25, 194 => 50, 195 => 100, 196 => 200, 197 => 141, 198 => 7, 199 => 14,
        200 => 28, 201 => 56, 202 => 112, 203 => 224, 204 => 221, 205 => 167, 206 => 83, 207 => 166,
        208 => 81, 209 => 162, 210 => 89, 211 => 178, 212 => 121, 213 => 242, 214 => 249, 215 => 239,
        216 => 195, 217 => 155, 218 => 43, 219 => 86, 220 => 172, 221 => 69, 222 => 138, 223 => 9,
        224 => 18, 225 => 36, 226 => 72, 227 => 144, 228 => 61, 229 => 122, 230 => 244, 231 => 245,
        232 => 247, 233 => 243, 234 => 251, 235 => 235, 236 => 203, 237 => 139, 238 => 11, 239 => 22,
        240 => 44, 241 => 88, 242 => 176, 243 => 125, 244 => 250, 245 => 233, 246 => 207, 247 => 131,
        248 => 27, 249 => 54, 250 => 108, 251 => 216, 252 => 173, 253 => 71, 254 => 142,
        _ => 1,
    }
}

/// The discrete logarithm to base `alpha`: entry `v` is the `i` below 255 with
/// `alpha^i == v`, for a nonzero `v`.
#[verifier::opaque]
pub open spec fn log_entry(v: u8) -> u8 {
    match v {
        1 => 0, 2 => 1, 3 => 25, 4 => 2, 5 => 50, 6 => 26, 7 => 198, 8 => 3,
        9 => 223, 10 => 51, 11 => 238, 12 => 27, 13 => 104, 14 => 199, 15 => 75, 16 => 4,
        17 => 100, 18 => 224, 19 => 14, 20 => 52, 21 => 141, 22 => 239, 23 => 129, 24 => 28,
        25 => 193, 26 => 105, 27 => 248, 28 => 200, 29 => 8, 30 => 76, 31 => 113, 32 => 5,
        33 => 138, 34 => 101, 35 => 47, 36 => 225, 37 => 36, 38 => 15, 39 => 33, 40 => 53,
        41 => 147, 42 => 142, 43 => 218, 44 => 240, 45 => 18, 46 => 130, 47 => 69, 48 => 29,
        49 => 181, 50 => 194, 51 => 125, 52 => 106, 53 => 39, 54 => 249, 55 => 185, 56 => 201,
        57 => 154, 58 => 9, 59 => 120, 60 => 77, 61 => 228, 62 => 114, 63 => 166, 64 => 6,
        65 => 191, 66 => 139, 67 => 98, 68 => 102, 69 => 221, 70 => 48, 71 => 253, 72 => 226,
        73 => 152, 74 => 37, 75 => 179, 76 => 16, 77 => 145, 78 => 34, 79 => 136, 80 => 54,
        81 => 208, 82 => 148, 83 => 206, 84 => 143, 85 => 150, 86 => 219, 87 => 189, 88 => 241,
        89 => 210, 90 => 19, 91 => 92, 92 => 131, 93 => 56, 94 => 70, 95 => 64, 96 => 30,
        97 => 66, 98 => 182, 99 => 163, 100 => 195, 101 => 72, 102 => 126, 103 => 110, 104 => 107,
        105 => 58, 106 => 40, 107 => 84, 108 => 250, 109 => 133, 110 => 186, 111 => 61, 112 => 202,
        113 => 94, 114 => 155, 115 => 159, 116 => 10, 117 => 21, 118 => 121, 119 => 43, 120 => 78,
        121 => 212, 122 => 229, 123 => 172, 124 => 115, 125 => 243, 126 => 167, 127 => 87, 128 => 7,
        129 => 112, 130 => 192, 131 => 247, 132 => 140, 133 => 128, 134 => 99, 135 => 13, 136 => 103,
        137 => 74, 138 => 222, 139 => 237, 140 => 49, 141 => 197, 142 => 254, 143 => 24, 144 => 227,
        145 => 165, 146 => 153, 147 => 119, 148 => 38, 149 => 184, 150 => 180, 151 => 124, 152 => 17,
        153 => 68, 154 => 146, 155 => 217, 156 => 35, 157 => 32, 158 => 137, 159 => 46, 160 => 55,
        161 => 63, 162 => 209, 163 => 91, 164 => 149, 165 => 188, 166 => 207, 167 => 205, 168 => 144,
        169 => 135, 170 => 151, 171 => 178, 172 => 220, 173 => 252, 174 => 190, 175 => 97, 176 => 242,
        177 => 86, 178 => 211, 179 => 171, 180 => 20, 181 => 42, 182 => 93, 183 => 158, 184 => 132,
        185 => 60, 186 => 57, 187 => 83, 188 => 71, 189 => 109, 190 => 65, 191 => 162, 192 => 31,
        193 => 45, 194 => 67, 195 => 216, 196 => 183, 197 => 123, 198 => 164, 199 => 118, 200 => 196,
        201 => 23, 202 => 73, 203 => 236, 204 => 127, 205 => 12, 206 => 111, 207 => 246, 208 => 108,
        209 => 161, 210 => 59, 211 => 82, 212 => 41, 213 => 157, 214 => 85, 215 => 170, 216 => 251,
        217 => 96, 218 => 134, 219 => 177, 220 => 187, 221 => 204, 222 => 62, 223 => 90, 224 => 203,
        225 => 89, 226 => 95, 227 => 176, 228 => 156, 229 => 169, 230 => 160, 231 => 81, 232 => 11,
        233 => 245, 234 => 22, 235 => 235, 236 => 122, 237 => 117, 238 => 44, 239 => 215, 240 => 79,
        241 => 174, 242 => 213, 243 => 233, 244 => 230, 245 => 231, 246 => 173, 247 => 232, 248 => 116,
        249 => 214, 250 => 244, 251 => 234, 252 => 168, 253 => 80, 254 => 88, 255 => 175,
        _ => 0,
    }
}

/// `alpha` raised to any natural power.
pub open spec fn alpha_pow(i: nat) -> u8 {
    exp_entry((i % 255) as u8)
}

/// The sum of two elements of the field: their bitwise exclusive or.
pub open spec fn gf_sum(a: u8, b: u8) -> u8 {
    a ^ b
}

/// The product of two elements of the field: zero if either is zero, and else the
/// power of alpha whose exponent is the sum of their logarithms.
pub open spec fn gf_product(a: u8, b: u8) -> u8 {
    if a == 0 || b == 0 {
        0
    } else {
        exp_entry(((log_entry(a) + log_entry(b)) % 255) as u8)
    }
}

/// The quotient `a / b` for a nonzero `b`.
pub open spec fn gf_quotient(a: u8, b: u8) -> u8 {
    if a == 0 {
        0
    } else {
        exp_entry(((255 + log_entry(a) - log_entry(b)) % 255) as u8)
    }
}

/// Multiplication by `alpha` written on the bits of the element: a shift, and a
/// reduction by the field polynomial when the top bit falls out.
pub open spec fn times_alpha(x: u8) -> u8 {
    if x & 0x80 != 0 {
        (x << 1) ^ 0x1d
    } else {
        x << 1
    }
}

/// `times_alpha` applied `k` times.
pub open spec fn times_alpha_pow(k: nat, x: u8) -> u8
    decreases k,
{
    if k == 0 {
        x
    } else {
        times_alpha(times_alpha_pow((k - 1) as nat, x))
    }
}

/// The pairs of one power of `alpha` and the next.
pub open spec fn successive_powers(a: u8, b: u8) -> bool {
    ||| (a == 1 && b == 2) || (a == 2 && b == 4) || (a == 4 && b == 8) || (a == 8 && b == 16)
    ||| (a == 16 && b == 32) || (a == 32 && b == 64) || (a == 64 && b == 128) || (a == 128 && b == 29)
    ||| (a == 29 && b == 58) || (a == 58 && b == 116) || (a == 116 && b == 232) || (a == 232 && b == 205)
    ||| (a == 205 && b == 135) || (a == 135 && b == 19) || (a == 19 && b == 38) || (a == 38 && b == 76)
    ||| (a == 76 && b == 152) || (a == 152 && b == 45) || (a == 45 && b == 90) || (a == 90 && b == 180)
    ||| (a == 180 && b == 117) || (a == 117 && b == 234) || (a == 234 && b == 201) || (a == 201 && b == 143)
    ||| (a == 143 && b == 3) || (a == 3 && b == 6) || (a == 6 && b == 12) || (a == 12 && b == 24)
    ||| (a == 24 && b == 48) || (a == 48 && b == 96) || (a == 96 && b == 192) || (a == 192 && b == 157)
    ||| (a == 157 && b == 39) || (a == 39 && b == 78) || (a == 78 && b == 156) || (a == 156 && b == 37)
    ||| (a == 37 && b == 74) || (a == 74 && b == 148) || (a == 148 && b == 53) || (a == 53 && b == 106)
    ||| (a == 106 && b == 212) || (a == 212 && b == 181) || (a == 181 && b == 119) || (a == 119 && b == 238)
    ||| (a == 238 && b == 193) || (a == 193 && b == 159) || (a == 159 && b == 35) || (a == 35 && b == 70)
    ||| (a == 70 && b == 140) || (a == 140 && b == 5) || (a == 5 && b == 10) || (a == 10 && b == 20)
    ||| (a == 20 && b == 40) || (a == 40 && b == 80) || (a == 80 && b == 160) || (a == 160 && b == 93)
    ||| (a == 93 && b == 186) || (a == 186 && b == 105) || (a == 105 && b == 210) || (a == 210 && b == 185)
    ||| (a == 185 && b == 111) || (a == 111 && b == 222) || (a == 222 && b == 161) || (a == 161 && b == 95)
    ||| (a == 95 && b == 190) || (a == 190 && b == 97) || (a == 97 && b == 194) || (a == 194 && b == 153)
    ||| (a == 153 && b == 47) || (a == 47 && b == 94) || (a == 94 && b == 188) || (a == 188 && b == 101)
    ||| (a == 101 && b == 202) || (a == 202 && b == 137) || (a == 137 && b == 15) || (a == 15 && b == 30)
    ||| (a == 30 && b == 60) || (a == 60 && b == 120) || (a == 120 && b == 240) || (a == 240 && b == 253)
    ||| (a == 253 && b == 231) || (a == 231 && b == 211) || (a == 211 && b == 187) || (a == 187 && b == 107)
    ||| (a == 107 && b == 214) || (a == 214 && b == 177) || (a == 177 && b == 127) || (a == 127 && b == 254)
    ||| (a == 254 && b == 225) || (a == 225 && b == 223) || (a == 223 && b == 163) || (a == 163 && b == 91)
    ||| (a == 91 && b == 182) || (a == 182 && b == 113) || (a == 113 && b == 226) || (a == 226 && b == 217)
    ||| (a == 217 && b == 175) || (a == 175 && b == 67) || (a == 67 && b == 134) || (a == 134 && b == 17)
    ||| (a == 17 && b == 34) || (a == 34 && b == 68) || (a == 68 && b == 136) || (a == 136 && b == 13)
    ||| (a == 13 && b == 26) || (a == 26 && b == 52) || (a == 52 && b == 104) || (a == 104 && b == 208)
    ||| (a == 208 && b == 189) || (a == 189 && b == 103) || (a == 103 && b == 206) || (a == 206 && b == 129)
    ||| (a == 129 && b == 31) || (a == 31 && b == 62) || (a == 62 && b == 124) || (a == 124 && b == 248)
    ||| (a == 248 && b == 237) || (a == 237 && b == 199) || (a == 199 && b == 147) || (a == 147 && b == 59)
    ||| (a == 59 && b == 118) || (a == 118 && b == 236) || (a == 236 && b == 197) || (a == 197 && b == 151)
    ||| (a == 151 && b == 51) || (a == 51 && b == 102) || (a == 102 && b == 204) || (a == 204 && b == 133)
    ||| (a == 133 && b == 23) || (a == 23 && b == 46) || (a == 46 && b == 92) || (a == 92 && b == 184)
    ||| (a == 184 && b == 109) || (a == 109 && b == 218) || (a == 218 && b == 169) || (a == 169 && b == 79)
    ||| (a == 79 && b == 158) || (a == 158 && b == 33) || (a == 33 && b == 66) || (a == 66 && b == 132)
    ||| (a == 132 && b == 21) || (a == 21 && b == 42) || (a == 42 && b == 84) || (a == 84 && b == 168)
    ||| (a == 168 && b == 77) || (a == 77 && b == 154) || (a == 154 && b == 41) || (a == 41 && b == 82)
    ||| (a == 82 && b == 164) || (a == 164 && b == 85) || (a == 85 && b == 170) || (a == 170 && b == 73)
    ||| (a == 73 && b == 146) || (a == 146 && b == 57) || (a == 57 && b == 114) || (a == 114 && b == 228)
    ||| (a == 228 && b == 213) || (a == 213 && b == 183) || (a == 183 && b == 115) || (a == 115 && b == 230)
    ||| (a == 230 && b == 209) || (a == 209 && b == 191) || (a == 191 && b == 99) || (a == 99 && b == 198)
    ||| (a == 198 && b == 145) || (a == 145 && b == 63) || (a == 63 && b == 126) || (a == 126 && b == 252)
    ||| (a == 252 && b == 229) || (a == 229 && b == 215) || (a == 215 && b == 179) || (a == 179 && b == 123)
    ||| (a == 123 && b == 246) || (a == 246 && b == 241) || (a == 241 && b == 255) || (a == 255 && b == 227)
    ||| (a == 227 && b == 219) || (a == 219 && b == 171) || (a == 171 && b == 75) || (a == 75 && b == 150)
    ||| (a == 150 && b == 49) || (a == 49 && b == 98) || (a == 98 && b == 196) || (a == 196 && b == 149)
    ||| (a == 149 && b == 55) || (a == 55 && b == 110) || (a == 110 && b == 220) || (a == 220 && b == 165)
    ||| (a == 165 && b == 87) || (a == 87 && b == 174) || (a == 174 && b == 65) || (a == 65 && b == 130)
    ||| (a == 130 && b == 25) || (a == 25 && b == 50) || (a == 50 && b == 100) || (a == 100 && b == 200)
    ||| (a == 200 && b == 141) || (a == 141 && b == 7) || (a == 7 && b == 14) || (a == 14 && b == 28)
    ||| (a == 28 && b == 56) || (a == 56 && b == 112) || (a == 112 && b == 224) || (a == 224 && b == 221)
    ||| (a == 221 && b == 167) || (a == 167 && b == 83) || (a == 83 && b == 166) || (a == 166 && b == 81)
    ||| (a == 81 && b == 162) || (a == 162 && b == 89) || (a == 89 && b == 178) || (a == 178 && b == 121)
    ||| (a == 121 && b == 242) || (a == 242 && b == 249) || (a == 249 && b == 239) || (a == 239 && b == 195)
    ||| (a == 195 && b == 155) || (a == 155 && b == 43) || (a == 43 && b == 86) || (a == 86 && b == 172)
    ||| (a == 172 && b == 69) || (a == 69 && b == 138) || (a == 138 && b == 9) || (a == 9 && b == 18)
    ||| (a == 18 && b == 36) || (a == 36 && b == 72) || (a == 72 && b == 144) || (a == 144 && b == 61)
    ||| (a == 61 && b == 122) || (a == 122 && b == 244) || (a == 244 && b == 245) || (a == 245 && b == 247)
    ||| (a == 247 && b == 243) || (a == 243 && b == 251) || (a == 251 && b == 235) || (a == 235 && b == 203)
    ||| (a == 203 && b == 139) || (a == 139 && b == 11) || (a == 11 && b == 22) || (a == 22 && b == 44)
    ||| (a == 44 && b == 88) || (a == 88 && b == 176) || (a == 176 && b == 125) || (a == 125 && b == 250)
    ||| (a == 250 && b == 233) || (a == 233 && b == 207) || (a == 207 && b == 131) || (a == 131 && b == 27)
    ||| (a == 27 && b == 54) || (a == 54 && b == 108) || (a == 108 && b == 216) || (a == 216 && b == 173)
    ||| (a == 173 && b == 71) || (a == 71 && b == 142) || (a == 142 && b == 1)
}

/// Neighbours in the table of powers are related by a multiplication by alpha.
#[verifier::rlimit(30)]
proof fn lemma_successive_powers(a: u8, b: u8)
    by (bit_vector)
    requires
        successive_powers(a, b),
    ensures
        b == times_alpha(a),
{
}

/// Multiplication by alpha distributes over sums.
proof fn lemma_times_alpha_linear(a: u8, b: u8)
    by (bit_vector)
    ensures
        times_alpha(a ^ b) == times_alpha(a) ^ times_alpha(b),
        times_alpha(0) == 0,
{
}

/// Sums in the field are their own inverses, commute and associate, and zero is
/// neutral.
pub proof fn lemma_xor(a: u8, b: u8, c: u8)
    by (bit_vector)
    ensures
        a ^ a == 0,
        a ^ 0 == a,
        0 ^ a == a,
        a ^ b == b ^ a,
        (a ^ b) ^ c == a ^ (b ^ c),
        (a ^ b == 0) == (a == b),
        (a ^ b) ^ b == a,
{
}

/// The two tables are inverse to each other, and no power of `alpha` is zero.
pub proof fn lemma_tables(v: u8)
    ensures
        v != 0 ==> exp_entry(log_entry(v)) == v,
        v != 0 ==> log_entry(v) < 255,
        v < 255 ==> log_entry(exp_entry(v)) == v,
        exp_entry(v) != 0,
        log_entry(1) == 0,
        log_entry(2) == 1,
        exp_entry(0) == 1,
        exp_entry(1) == 2,
{
    reveal(exp_entry);
    reveal(log_entry);
}

/// Each table entry is `alpha` times the entry before it, and `alpha^255 == 1`.
#[verifier::rlimit(30)]
pub proof fn lemma_exp_step(i: u8)
    requires
        i < 255,
    ensures
        exp_entry(((i + 1) % 255) as u8) == times_alpha(exp_entry(i)),
{
    if i < 254 {
        let j: u8 = (i + 1) as u8;
        assert(successive_powers(exp_entry(i), exp_entry(j))) by {
            reveal(exp_entry);
        }
        lemma_successive_powers(exp_entry(i), exp_entry(j));
    } else {
        assert(successive_powers(exp_entry(254), exp_entry(0))) by {
            reveal(exp_entry);
        }
        lemma_successive_powers(exp_entry(254), exp_entry(0));
    }
}

/// The remainder on division by 255 of a number below three times 255.
proof fn lemma_mod_small(x: int)
    requires
        0 <= x < 765,
    ensures
        x % 255 == (if x < 255 {
            x
        } else if x < 510 {
            x - 255
        } else {
            x - 510
        }),
{
    if x < 255 {
        vstd::arithmetic::div_mod::lemma_fundamental_div_mod_converse(x, 255, 0, x);
    } else if x < 510 {
        vstd::arithmetic::div_mod::lemma_fundamental_div_mod_converse(x, 255, 1, x - 255);
    } else {
        vstd::arithmetic::div_mod::lemma_fundamental_div_mod_converse(x, 255, 2, x - 510);
    }
}

/// Sums and differences of exponents modulo 255.
proof fn lemma_mod_sums(a: int, b: int, c: int)
    requires
        0 <= a < 255,
        0 <= b < 255,
        0 <= c < 255,
    ensures
        ((a + b) % 255 + c) % 255 == (a + (b + c) % 255) % 255,
        ((255 + a - b) % 255 + b) % 255 == a,
        (255 + (a + b) % 255 - b) % 255 == a,
{
    lemma_mod_small(a + b);
    lemma_mod_small(b + c);
    lemma_mod_small((a + b) % 255 + c);
    lemma_mod_small(a + (b + c) % 255);
    lemma_mod_small(255 + a - b);
    lemma_mod_small((255 + a - b) % 255 + b);
    lemma_mod_small(255 + (a + b) % 255 - b);
}

/// A product with zero is zero, and a product is zero only if a factor is.
pub proof fn lemma_product_zero(a: u8, b: u8)
    ensures
        gf_product(a, b) == 0 <==> (a == 0 || b == 0),
        gf_product(a, 0) == 0,
        gf_product(0, a) == 0,
{
    if a != 0 && b != 0 {
        lemma_tables(((log_entry(a) + log_entry(b)) % 255) as u8);
    }
}

/// One is neutral for products.
pub proof fn lemma_product_one(a: u8)
    ensures
        gf_product(a, 1) == a,
        gf_product(1, a) == a,
{
    lemma_tables(a);
}

/// Products commute.
pub proof fn lemma_product_commutes(a: u8, b: u8)
    ensures
        gf_product(a, b) == gf_product(b, a),
{
}

/// Products associate.
pub proof fn lemma_product_associates(a: u8, b: u8, c: u8)
    ensures
        gf_product(gf_product(a, b), c) == gf_product(a, gf_product(b, c)),
{
    lemma_product_zero(a, b);
    lemma_product_zero(b, c);
    if a != 0 && b != 0 && c != 0 {
        lemma_tables(a);
        lemma_tables(b);
        lemma_tables(c);
        let la: int = log_entry(a) as int;
        let lb: int = log_entry(b) as int;
        let lc: int = log_entry(c) as int;
        let ab: int = (la + lb) % 255;
        let bc: int = (lb + lc) % 255;
        lemma_tables(ab as u8);
        lemma_tables(bc as u8);
        lemma_mod_sums(la, lb, lc);
        assert(gf_product(a, b) == exp_entry(ab as u8));
        assert(gf_product(b, c) == exp_entry(bc as u8));
        assert(log_entry(gf_product(a, b)) == ab);
        assert(log_entry(gf_product(b, c)) == bc);
    }
}

/// Multiplying by `alpha` is `times_alpha`.
pub proof fn lemma_product_alpha(x: u8)
    ensures
        gf_product(2, x) == times_alpha(x),
{
    if x == 0 {
        lemma_times_alpha_linear(0, 0);
    } else {
        lemma_tables(x);
        lemma_exp_step(log_entry(x));
    }
}

/// Multiplying by `alpha^k` is `times_alpha` applied `k` times.
pub proof fn lemma_product_alpha_pow(k: nat, x: u8)
    requires
        k < 255,
    ensures
        gf_product(exp_entry(k as u8), x) == times_alpha_pow(k, x),
    decreases k,
{
    lemma_tables(0);
    if k == 0 {
        lemma_product_one(x);
    } else {
        let j: u8 = (k - 1) as u8;
        lemma_product_alpha_pow(j as nat, x);
        lemma_exp_step(j);
        lemma_product_alpha(exp_entry(j));
        assert(exp_entry(k as u8) == gf_product(2, exp_entry(j)));
        lemma_product_associates(2, exp_entry(j), x);
        lemma_product_alpha(gf_product(exp_entry(j), x));
    }
}

/// Repeated multiplication by alpha distributes over sums.
proof fn lemma_times_alpha_pow_linear(k: nat, a: u8, b: u8)
    ensures
        times_alpha_pow(k, a ^ b) == times_alpha_pow(k, a) ^ times_alpha_pow(k, b),
    decreases k,
{
    if k > 0 {
        lemma_times_alpha_pow_linear((k - 1) as nat, a, b);
        lemma_times_alpha_linear(
            times_alpha_pow((k - 1) as nat, a),
            times_alpha_pow((k - 1) as nat, b),
        );
    }
}

/// Multiplication distributes over addition.
pub proof fn lemma_product_distributes(a: u8, b: u8, c: u8)
    ensures
        gf_product(a, gf_sum(b, c)) == gf_sum(gf_product(a, b), gf_product(a, c)),
        gf_product(gf_sum(b, c), a) == gf_sum(gf_product(b, a), gf_product(c, a)),
{
    if a == 0 {
        lemma_xor(0, 0, 0);
    } else {
        lemma_tables(a);
        let k: nat = log_entry(a) as nat;
        lemma_product_alpha_pow(k, b ^ c);
        lemma_product_alpha_pow(k, b);
        lemma_product_alpha_pow(k, c);
        lemma_times_alpha_pow_linear(k, b, c);
    }
    lemma_product_commutes(a, gf_sum(b, c));
    lemma_product_commutes(a, b);
    lemma_product_commutes(a, c);
}

/// Division undoes multiplication.
pub proof fn lemma_quotient(a: u8, b: u8)
    requires
        b != 0,
    ensures
        gf_product(gf_quotient(a, b), b) == a,
        gf_quotient(gf_product(a, b), b) == a,
        gf_quotient(a, b) == 0 <==> a == 0,
{
    lemma_tables(a);
    lemma_tables(b);
    if a != 0 {
        let la: int = log_entry(a) as int;
        let lb: int = log_entry(b) as int;
        lemma_mod_sums(la, lb, 0);
        let q: int = (255 + la - lb) % 255;
        lemma_tables(q as u8);
        assert(gf_quotient(a, b) == exp_entry(q as u8));
        assert(log_entry(gf_quotient(a, b)) == q);
        let p: int = (la + lb) % 255;
        lemma_tables(p as u8);
        assert(gf_product(a, b) == exp_entry(p as u8));
        assert(log_entry(gf_product(a, b)) == p);
    }
}

/// Powers of `alpha` multiply by adding exponents.
pub proof fn lemma_alpha_pow_add(i: nat, j: nat)
    ensures
        gf_product(alpha_pow(i), alpha_pow(j)) == alpha_pow(i + j),
        alpha_pow(i) != 0,
{
    lemma_tables((i % 255) as u8);
    lemma_tables((j % 255) as u8);
    assert(((i % 255) + (j % 255)) % 255 == (i + j) % 255) by {
        vstd::arithmetic::div_mod::lemma_add_mod_noop(i as int, j as int, 255);
    }
}

/// The table of powers of `alpha`.
fn exp_lookup(i: u8) -> (r: u8)
    ensures
        r == exp_entry(i),
{
    reveal(exp_entry);
    match i {
        0 => 1, 1 => 2, 2 => 4, 3 => 8, 4 => 16, 5 => 32, 6 => 64, 7 => 128,
        8 => 29, 9 => 58, 10 => 116, 11 => 232, 12 => 205, 13 => 135, 14 => 19, 15 => 38,
        16 => 76, 17 => 152, 18 => 45, 19 => 90, 20 => 180, 21 => 117, 22 => 234, 23 => 201,
        24 => 143, 25 => 3, 26 => 6, 27 => 12, 28 => 24, 29 => 48, 30 => 96, 31 => 192,
        32 => 157, 33 => 39, 34 => 78, 35 => 156, 36 => 37, 37 => 74, 38 => 148, 39 => 53,
        40 => 106, 41 => 212, 42 => 181, 43 => 119, 44 => 238, 45 => 193, 46 => 159, 47 => 35,
        48 => 70, 49 => 140, 50 => 5, 51 => 10, 52 => 20, 53 => 40, 54 => 80, 55 => 160,
        56 => 93, 57 => 186, 58 => 105, 59 => 210, 60 => 185, 61 => 111, 62 => 222, 63 => 161,
        64 => 95, 65 => 190, 66 => 97, 67 => 194, 68 => 153, 69 => 47, 70 => 94, 71 => 188,
        72 => 101, 73 => 202, 74 => 137, 75 => 15, 76 => 30, 77 => 60, 78 => 120, 79 => 240,
        80 => 253, 81 => 231, 82 => 211, 83 => 187, 84 => 107, 85 => 214, 86 => 177, 87 => 127,
        88 => 254, 89 => 225, 90 => 223, 91 => 163, 92 => 91, 93 => 182, 94 => 113, 95 => 226,
        96 => 217, 97 => 175, 98 => 67, 99 => 134, 100 => 17, 101 => 34, 102 => 68, 103 => 136,
        104 => 13, 105 => 26, 106 => 52, 107 => 104, 108 => 208, 109 => 189, 110 => 103, 111 => 206,
        112 => 129, 113 => 31, 114 => 62, 115 => 124, 116 => 248, 117 => 237, 118 => 199, 119 => 147,
        120 => 59, 121 => 118, 122 => 236, 123 => 197, 124 => 151, 125 => 51, 126 => 102, 127 => 204,
        128 => 133, 129 => 23, 130 => 46, 131 => 92, 132 => 184, 133 => 109, 134 => 218, 135 => 169,
        136 => 79, 137 => 158, 138 => 33, 139 => 66, 140 => 132, 141 => 21, 142 => 42, 143 => 84,
        144 => 168, 145 => 77, 146 => 154, 147 => 41, 148 => 82, 149 => 164, 150 => 85, 151 => 170,
        152 => 73, 153 => 146, 154 => 57, 155 => 114, 156 => 228, 157 => 213, 158 => 183, 159 => 115,
        160 => 230, 161 => 209, 162 => 191, 163 => 99, 164 => 198, 165 => 145, 166 => 63, 167 => 126,
        168 => 252, 169 => 229, 170 => 215, 171 => 179, 172 => 123, 173 => 246, 174 => 241, 175 => 255,
        176 => 227, 177 => 219, 178 => 171, 179 => 75, 180 => 150, 181 => 49, 182 => 98, 183 => 196,
        184 => 149, 185 => 55, 186 => 110, 187 => 220, 188 => 165, 189 => 87, 190 => 174, 191 => 65,
        192 => 130, 193 => 25, 194 => 50, 195 => 100, 196 => 200, 197 => 141, 198 => 7, 199 => 14,
        200 => 28, 201 => 56, 202 => 112, 203 => 224, 204 => 221, 205 => 167, 206 => 83, 207 => 166,
        208 => 81, 209 => 162, 210 => 89, 211 => 178, 212 => 121, 213 => 242, 214 => 249, 215 => 239,
        216 => 195, 217 => 155, 218 => 43, 219 => 86, 220 => 172, 221 => 69, 222 => 138, 223 => 9,
        224 => 18, 225 => 36, 226 => 72, 227 => 144, 228 => 61, 229 => 122, 230 => 244, 231 => 245,
        232 => 247, 233 => 243, 234 => 251, 235 => 235, 236 => 203, 237 => 139, 238 => 11, 239 => 22,
        240 => 44, 241 => 88, 242 => 176, 243 => 125, 244 => 250, 245 => 233, 246 => 207, 247 => 131,
        248 => 27, 249 => 54, 250 => 108, 251 => 216, 252 => 173, 253 => 71, 254 => 142,
        _ => 1,
    }
}

/// The table of logarithms to base `alpha`.
fn log_lookup(v: u8) -> (r: u8)
    ensures
        r == log_entry(v),
{
    reveal(log_entry);
    match v {
        1 => 0, 2 => 1, 3 => 25, 4 => 2, 5 => 50, 6 => 26, 7 => 198, 8 => 3,
        9 => 223, 10 => 51, 11 => 238, 12 => 27, 13 => 104, 14 => 199, 15 => 75, 16 => 4,
        17 => 100, 18 => 224, 19 => 14, 20 => 52, 21 => 141, 22 => 239, 23 => 129, 24 => 28,
        25 => 193, 26 => 105, 27 => 248, 28 => 200, 29 => 8, 30 => 76, 31 => 113, 32 => 5,
        33 => 138, 34 => 101, 35 => 47, 36 => 225, 37 => 36, 38 => 15, 39 => 33, 40 => 53,
        41 => 147, 42 => 142, 43 => 218, 44 => 240, 45 => 18, 46 => 130, 47 => 69, 48 => 29,
        49 => 181, 50 => 194, 51 => 125, 52 => 106, 53 => 39, 54 => 249, 55 => 185, 56 => 201,
        57 => 154, 58 => 9, 59 => 120, 60 => 77, 61 => 228, 62 => 114, 63 => 166, 64 => 6,
        65 => 191, 66 => 139, 67 => 98, 68 => 102, 69 => 221, 70 => 48, 71 => 253, 72 => 226,
        73 => 152, 74 => 37, 75 => 179, 76 => 16, 77 => 145, 78 => 34, 79 => 136, 80 => 54,
        81 => 208, 82 => 148, 83 => 206, 84 => 143, 85 => 150, 86 => 219, 87 => 189, 88 => 241,
        89 => 210, 90 => 19, 91 => 92, 92 => 131, 93 => 56, 94 => 70, 95 => 64, 96 => 30,
        97 => 66, 98 => 182, 99 => 163, 100 => 195, 101 => 72, 102 => 126, 103 => 110, 104 => 107,
        105 => 58, 106 => 40, 107 => 84, 108 => 250, 109 => 133, 110 => 186, 111 => 61, 112 => 202,
        113 => 94, 114 => 155, 115 => 159, 116 => 10, 117 => 21, 118 => 121, 119 => 43, 120 => 78,
        121 => 212, 122 => 229, 123 => 172, 124 => 115, 125 => 243, 126 => 167, 127 => 87, 128 => 7,
        129 => 112, 130 => 192, 131 => 247, 132 => 140, 133 => 128, 134 => 99, 135 => 13, 136 => 103,
        137 => 74, 138 => 222, 139 => 237, 140 => 49, 141 => 197, 142 => 254, 143 => 24, 144 => 227,
        145 => 165, 146 => 153, 147 => 119, 148 => 38, 149 => 184, 150 => 180, 151 => 124, 152 => 17,
        153 => 68, 154 => 146, 155 => 217, 156 => 35, 157 => 32, 158 => 137, 159 => 46, 160 => 55,
        161 => 63, 162 => 209, 163 => 91, 164 => 149, 165 => 188, 166 => 207, 167 => 205, 168 => 144,
        169 => 135, 170 => 151, 171 => 178, 172 => 220, 173 => 252, 174 => 190, 175 => 97, 176 => 242,
        177 => 86, 178 => 211, 179 => 171, 180 => 20, 181 => 42, 182 => 93, 183 => 158, 184 => 132,
        185 => 60, 186 => 57, 187 => 83, 188 => 71, 189 => 109, 190 => 65, 191 => 162, 192 => 31,
        193 => 45, 194 => 67, 195 => 216, 196 => 183, 197 => 123, 198 => 164, 199 => 118, 200 => 196,
        201 => 23, 202 => 73, 203 => 236, 204 => 127, 205 => 12, 206 => 111, 207 => 246, 208 => 108,
        209 => 161, 210 => 59, 211 => 82, 212 => 41, 213 => 157, 214 => 85, 215 => 170, 216 => 251,
        217 => 96, 218 => 134, 219 => 177, 220 => 187, 221 => 204, 222 => 62, 223 => 90, 224 => 203,
        225 => 89, 226 => 95, 227 => 176, 228 => 156, 229 => 169, 230 => 160, 231 => 81, 232 => 11,
        233 => 245, 234 => 22, 235 => 235, 236 => 122, 237 => 117, 238 => 44, 239 => 215, 240 => 79,
        241 => 174, 242 => 213, 243 => 233, 244 => 230, 245 => 231, 246 => 173, 247 => 232, 248 => 116,
        249 => 214, 250 => 244, 251 => 234, 252 => 168, 253 => 80, 254 => 88, 255 => 175,
        _ => 0,
    }
}

/// The sum of two elements of the field.
pub fn gf_add(a: u8, b: u8) -> (r: u8)
    ensures
        r == gf_sum(a, b),
{
    a ^ b
}

/// The power of alpha with the given exponent; exponents count modulo 255.
pub fn gf_exp(exp: usize) -> (r: u8)
    ensures
        r == alpha_pow(exp as nat),
{
    exp_lookup((exp % 255) as u8)
}

/// The logarithm of a nonzero element to the base alpha.
pub fn gf_log(val: u8) -> (r: usize)
    requires
        val != 0,
    ensures
        r < 255,
        r == log_entry(val),
        alpha_pow(r as nat) == val,
{
    proof {
        lemma_tables(val);
    }
    log_lookup(val) as usize
}

/// The product of two elements of the field.
pub fn gf_multiply(a: u8, b: u8) -> (r: u8)
    ensures
        r == gf_product(a, b),
{
    if a == 0 || b == 0 {
        return 0;
    }
    let log_a: usize = gf_log(a);
    let log_b: usize = gf_log(b);
    let log_result: usize = (log_a + log_b) % 255;
    gf_exp(log_result)
}

/// The quotient of an element of the field by a nonzero one.
pub fn gf_divide(a: u8, b: u8) -> (r: u8)
    requires
        b != 0,
    ensures
        r == gf_quotient(a, b),
{
    if a == 0 {
        return 0;
    }
    let log_a: usize = gf_log(a);
    let log_b: usize = gf_log(b);
    let log_result: usize = (255 + log_a - log_b) % 255;
    gf_exp(log_result)
}

} // verus!
