#version 450
// Scales a picture: one invocation makes one pixel of the destination.

layout(local_size_x = 8, local_size_y = 8) in;

layout(set = 0, binding = 0) uniform texture2D plane_y;
layout(set = 0, binding = 1) uniform texture2D plane_u;
layout(set = 0, binding = 2) uniform texture2D plane_v;
layout(set = 0, binding = 3, r8) uniform writeonly image2D out_y;
layout(set = 0, binding = 4, r8) uniform writeonly image2D out_u;
layout(set = 0, binding = 5, r8) uniform writeonly image2D out_v;
layout(set = 0, binding = 6, rgba8) uniform writeonly image2D out_rgb;
layout(set = 0, binding = 7) uniform sampler none;

layout(push_constant) uniform Push {
    ivec2 src_size;
    ivec2 dst_size;
    ivec2 chroma_size;
    int mode;
    int algorithm;
    int full_range;
    int center_siting;
} push;

float pixel(texture2D plane, ivec2 size, ivec2 at) {
    ivec2 inside = clamp(at, ivec2(0), size - 1);
    return round(texelFetch(sampler2D(plane, none), inside, 0).r * 255.0);
}

float weight(float x) {
    if (push.algorithm == 1) {
        return max(1.0 - x, 0.0);
    }
    if (x < 1.0) {
        return (6.0 + x * x * (-14.4 + x * 8.4)) / 6.0;
    }
    if (x < 2.0) {
        return (14.4 + x * (-28.8 + x * (18.0 + x * -3.6))) / 6.0;
    }
    return 0.0;
}

// The weights of the taps around `x`; false where they vanish.
bool weigh(float x, int taps, out int first, out float w[4]) {
    first = int(floor(x)) - (taps / 2 - 1);
    float sum = 0.0;
    for (int i = 0; i < taps; i++) {
        w[i] = weight(abs(float(first + i) - x));
        sum += w[i];
    }
    for (int i = 0; i < taps; i++) {
        w[i] /= sum;
    }
    return sum > 1.1920929e-7;
}

float sample_plane(texture2D plane, ivec2 size, vec2 at) {
    int taps = push.algorithm == 1 ? 2 : 4;
    int left, top;
    float across[4], down[4];
    bool heavy = push.algorithm != 0 && weigh(at.x, taps, left, across)
        && weigh(at.y, taps, top, down);
    if (!heavy) {
        vec2 away = sign(at) * floor(abs(at) + 0.5);
        return pixel(plane, size, ivec2(away));
    }
    float sum = 0.0;
    for (int j = 0; j < taps; j++) {
        float row = 0.0;
        for (int i = 0; i < taps; i++) {
            row += pixel(plane, size, ivec2(left + i, top + j)) * across[i];
        }
        sum += row * down[j];
    }
    return sum;
}

vec2 place(ivec2 at, ivec2 src, ivec2 dst) {
    return (vec2(at) + 0.5) * vec2(src) / vec2(dst) - 0.5;
}

float expand(float y) {
    return push.full_range != 0 ? y : (y - 16.0) * 1.1643835;
}

float unit(float v) {
    return clamp(floor(v + 0.5), 0.0, 255.0) / 255.0;
}

void main() {
    ivec2 at = ivec2(gl_GlobalInvocationID.xy);
    if (at.x >= push.dst_size.x || at.y >= push.dst_size.y) {
        return;
    }
    vec2 luma_at = place(at, push.src_size, push.dst_size);
    float y = sample_plane(plane_y, push.src_size, luma_at);
    if (push.mode == 1) {
        float c = unit(expand(y));
        imageStore(out_rgb, at, vec4(c, c, c, 1.0));
    } else if (push.mode == 0) {
        vec2 chroma_at = (luma_at - (push.center_siting != 0 ? 0.5 : 0.0)) / 2.0;
        float u = sample_plane(plane_u, push.chroma_size, chroma_at) - 128.0;
        float v = sample_plane(plane_v, push.chroma_size, chroma_at) - 128.0;
        float b = expand(y);
        vec4 gain = push.full_range != 0
            ? vec4(1.402, 0.344136, 0.714136, 1.772)
            : vec4(1.59603, 0.39176, 0.81297, 2.01723);
        vec3 rgb = vec3(b + gain.x * v, b - gain.y * u - gain.z * v, b + gain.w * u);
        imageStore(out_rgb, at, vec4(unit(rgb.r), unit(rgb.g), unit(rgb.b), 1.0));
    } else {
        imageStore(out_y, at, vec4(unit(y)));
        ivec2 dst_chroma = (push.dst_size + 1) / 2;
        if (push.mode == 2 && at.x < dst_chroma.x && at.y < dst_chroma.y) {
            vec2 chroma_at = place(at, push.chroma_size, dst_chroma)
                - (push.center_siting != 0 ? 0.25 : 0.0);
            imageStore(out_u, at, vec4(unit(sample_plane(plane_u, push.chroma_size, chroma_at))));
            imageStore(out_v, at, vec4(unit(sample_plane(plane_v, push.chroma_size, chroma_at))));
        }
    }
}
