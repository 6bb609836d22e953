use vir::access::{
    Access, ACCESS_BLIT_READ, ACCESS_COLOR_READ, ACCESS_COLOR_WRITE, ACCESS_COMPUTE_WRITE, ACCESS_FRAGMENT_SAMPLED,
    DOMAIN_GRAPHICS, LAYOUT_UNDEFINED, STAGE_FRAGMENT,
};
use vir::analysis::{DescriptorBinding, PipelineBindings, Unchecked};
use vir::dump::highlight;
use vir::ids::PipelineId;
use vir::ir::{ClearValue, DESCRIPTOR_TYPE_COMBINED_IMAGE_SAMPLER};
use vir::module::Module;
use vir::resource::{Extent2D, Extent3D, Image, ImageAttachment, ImageInfo};
use vir::state::{BlendPreset, Viewport};

/// Vulkan's raw `R8G8B8A8_SRGB`.
const FORMAT: i32 = 43;

fn dump_of_one_pass_with(syntax_highlighting: bool) -> String {
    let extent = Extent3D { width: 64, height: 32, depth: 1 };
    let attachment = ImageAttachment::new(Image::imported(0, FORMAT, extent, 1), FORMAT, extent, 1, LAYOUT_UNDEFINED);

    let mut module = Module::new();
    let target = module.import_attachment(&attachment);
    module.set_name(target, "target");

    module.begin_rendering(&[(target, Access(ACCESS_COLOR_READ | ACCESS_COLOR_WRITE))]);
    module.with_name("triangle");
    module.bind_graphics_pipeline(PipelineId(0));
    module.set_viewport(0, Viewport::framebuffer());
    module.broadcast_color_blend(BlendPreset::Off.state());
    module.draw(3u32, 1u32);
    let rendered = module.end_rendering();

    assert!(module.is_compilable(&[rendered]));
    module.compile(&Unchecked, rendered).unwrap().dump_with(syntax_highlighting)
}

fn dump_of_one_pass() -> String {
    dump_of_one_pass_with(false)
}

#[test]
fn a_program_without_branches_is_one_entry_block() {
    let dump = dump_of_one_pass();
    assert!(dump.contains("1 blocks"), "{dump}");
    assert!(dump.contains("= label 0:"), "{dump}");
    assert_eq!(dump.matches("= label ").count(), 1, "{dump}");
    assert!(!dump.contains("branch"), "{dump}");
    assert!(dump.trim_end().ends_with("return"), "{dump}");
}

#[test]
fn a_named_pass_heads_the_region_it_opened() {
    let dump = dump_of_one_pass();
    assert!(
        dump.lines()
            .any(|line| line.starts_with(';') && line.contains("Pass \"triangle\" -> \"target\" 64x32")),
        "{dump}"
    );
}

#[test]
fn a_resource_operand_carries_the_name_it_was_given() {
    let dump = dump_of_one_pass();
    assert!(dump.contains("= const \"target\""), "{dump}");
    assert!(dump.contains("image %") && dump.contains("(\"target\")"), "{dump}");
    assert!(dump.contains("attachments=[%"), "{dump}");
    assert!(dump.contains("(target)"), "{dump}");
}

#[test]
fn constants_print_as_values_and_are_named_at_their_uses() {
    let dump = dump_of_one_pass();
    assert!(dump.lines().any(|line| line.ends_with("= const 3")), "{dump}");
    assert!(dump.lines().any(|line| line.ends_with("= const 1")), "{dump}");
    assert!(dump.contains("draw verts=%"), "{dump}");
    assert!(dump.contains("(3) insts=%"), "{dump}");
    assert!(dump.contains("(1) pipeline=#0"), "{dump}");

    let barrier = dump
        .lines()
        .find(|line| line.contains("barrier.image"))
        .expect("the image barrier should be dumped");
    assert!(barrier.contains("access=%") && barrier.contains("(None) -> %"), "{barrier}");
    assert!(barrier.ends_with("(ColorRead|ColorWrite)"), "{barrier}");
}

#[test]
fn types_are_dumped_as_global_definitions() {
    let dump = dump_of_one_pass();
    assert!(dump.contains("1 types"), "{dump}");
    assert!(
        dump.lines().any(|line| line.ends_with("= type image R8G8B8A8_SRGB samples=1")),
        "{dump}"
    );

    let ty = dump.find("= type image").expect("the image type should be dumped");
    let constant = dump.find("= const ").expect("constants should be dumped");
    assert!(ty < constant, "type definitions should precede constants\n{dump}");
}

/// Takes every escape sequence back out of a highlighted dump.
fn strip_ansi(text: &str) -> String {
    let mut stripped = String::new();
    let mut rest = text;
    while let Some(start) = rest.find('\u{1b}') {
        stripped.push_str(&rest[..start]);
        let end = rest[start..].find('m').expect("an escape should end in m");
        rest = &rest[start + end + 1..];
    }
    stripped.push_str(rest);
    stripped
}

fn target_info() -> ImageInfo {
    let mut info = ImageInfo::new();
    info.extent = Extent3D { width: 64, height: 32, depth: 1 };
    info.format = FORMAT;
    info
}

/// Highlighting only paints what the plain dump already says, so taking the escapes back out
/// has to leave the two identical.
#[test]
fn highlighting_changes_nothing_but_the_color() {
    let colored = dump_of_one_pass_with(true);
    assert!(colored.contains('\x1b'), "{colored}");
    assert_eq!(strip_ansi(&colored), dump_of_one_pass());
}

#[test]
fn highlighting_paints_ids_opcodes_and_operands() {
    let colored = dump_of_one_pass_with(true);
    assert!(colored.contains("\x1b[36m%3\x1b[0m = "), "{colored}");
    assert!(colored.contains("\x1b[33m64x32\x1b[0m"), "{colored}");
    assert!(colored.contains("\x1b[1;34mdraw\x1b[0m"), "{colored}");
    assert!(colored.contains("\x1b[32m\"target\"\x1b[0m"), "{colored}");
    assert!(colored.contains("\x1b[37mverts\x1b[0m=\x1b[36m%"), "{colored}");
    assert!(colored.lines().any(|line| line.starts_with("\x1b[90m;")), "{colored}");
}

/// A comment is one color from end to end, so an operand painted inside it hands the
/// comment's color back rather than reset to the terminal's default.
#[test]
fn a_highlighted_comment_stays_a_comment_after_an_operand() {
    let colored = dump_of_one_pass_with(true);
    let header = colored.lines().find(|line| line.contains("Pass ")).expect("the pass header should be dumped");
    assert!(header.contains("\x1b[32m\"triangle\"\x1b[0m\x1b[90m"), "{header}");
    assert!(header.ends_with("\x1b[0m"), "{header}");
}

#[test]
fn a_compute_region_heads_and_indents_like_a_rendering_one() {
    let mut module = Module::new();
    let target = module.transient_image(&target_info());
    module.set_name(target, "storage");

    module.begin_compute(&[(target, Access(ACCESS_COMPUTE_WRITE))]);
    module.with_name("blur");
    module.bind_compute_pipeline(PipelineId(0));
    module.push_constant_bytes(0, &1u32.to_ne_bytes());
    module.dispatch(8u32, 4u32, 1u32);
    let end = module.end_compute();

    let dump = module.compile(&Unchecked, end).unwrap().dump();
    assert!(dump.contains("Pass \"blur\" -> \"storage\" 64x32"), "{dump}");
    assert!(dump.contains("  dispatch groups_x=%"), "{dump}");
    assert!(dump.lines().any(|line| line.ends_with("= const 8")), "{dump}");
    assert!(dump.lines().any(|line| line.ends_with("= const 4")), "{dump}");
    assert!(dump.lines().any(|line| line.ends_with("= const 1")), "{dump}");
    assert!(dump.contains("push_constants=[0..4]"), "{dump}");
    assert!(dump.contains("end_compute"), "{dump}");
}

#[test]
fn a_selection_prints_its_blocks_and_the_variable_it_branches_on() {
    let mut module = Module::new();
    let target = module.transient_image(&target_info());
    module.set_name(target, "target");

    let animate = module.declare_bool_var("animate", true);
    let color = module.declare_clear_var("hue", ClearValue { r: 0, g: 0, b: 0, a: 0x3f80_0000 });
    let selection = module.set_condition(animate);
    let taken = module.clear_from(target, color);
    let selection = module.otherwise(selection, taken);
    let cleared = module.end_condition(selection, target);
    let end = module.release(cleared, Access(ACCESS_BLIT_READ), DOMAIN_GRAPHICS);

    let dump = module.compile(&Unchecked, end).unwrap().dump();
    assert!(dump.contains("4 blocks"), "{dump}");
    assert!(dump.contains("(\"animate\") Bool"), "{dump}");
    assert!(dump.contains("= label 0:"), "{dump}");
    assert!(dump.contains("selection_merge label 1"), "{dump}");
    assert!(dump.contains("branch_cond %") && dump.contains("(animate) -> label 2, label 3"), "{dump}");
    assert!(dump.contains("branch label 1"), "{dump}");
    assert!(dump.contains("color=%") && dump.contains("(hue)"), "{dump}");
    assert!(dump.contains("phi ["), "{dump}");
    assert!(dump.contains("=   selection_merge"), "{dump}");
}

/// Bindings written out by the test rather than reflected from shaders.
struct Declared(Vec<DescriptorBinding>);

impl PipelineBindings for Declared {
    fn bindings(&self, _: PipelineId) -> Option<Vec<DescriptorBinding>> {
        Some(self.0.clone())
    }

    fn bindless_set(&self, _: PipelineId) -> Option<u32> {
        None
    }
}

#[test]
fn a_descriptor_write_is_a_line_of_its_region() {
    let extent = Extent2D { width: 4, height: 4 };
    let mut module = Module::new();
    let attachment = module.transient_image(&ImageInfo::color_target(extent, FORMAT));
    let texture = module.transient_image(&ImageInfo::color_target(extent, FORMAT));
    module.set_name(texture, "source");

    module.begin_rendering(&[(attachment, Access(ACCESS_COLOR_READ | ACCESS_COLOR_WRITE))]);
    module.bind_graphics_pipeline(PipelineId(0));
    module.bind_texture(1, 2, texture, 7);
    module.draw(3u32, 1u32);
    let end = module.end_rendering();

    let bindings = Declared(vec![DescriptorBinding {
        set: 1,
        binding: 2,
        descriptor_type: DESCRIPTOR_TYPE_COMBINED_IMAGE_SAMPLER,
        count: 1,
        variable_count: false,
        stages: STAGE_FRAGMENT,
        access: Access(ACCESS_FRAGMENT_SAMPLED),
    }]);
    let dump = module.compile(&bindings, end).unwrap().dump();
    assert!(dump.contains("write_descriptor set=1 binding=2"), "{dump}");
    assert!(dump.contains("combined_image_sampler %5(source)"), "{dump}");
    assert!(dump.contains("access=%"), "{dump}");
    assert!(dump.contains("(FragmentSampled)"), "{dump}");
    assert!(dump.lines().any(|line| line.ends_with("= const FragmentSampled")), "{dump}");
}

/// This library records no source location with a callback variable, so its dump is the one
/// a build without debug assertions prints.
#[test]
fn a_callback_variable_prints_where_it_was_declared() {
    let mut module = Module::new();
    let target = module.transient_image(&target_info());
    let body = module.declare_callback_var("draws");
    module.begin_rendering(&[(target, Access(ACCESS_COLOR_READ | ACCESS_COLOR_WRITE))]);
    module.bind_graphics_pipeline(PipelineId(0));
    module.record_from(body);
    let end = module.end_rendering();

    let dump = module.compile(&Unchecked, end).unwrap().dump();
    let expected = "(\"draws\") Callback slot=";
    assert!(dump.contains(expected), "{expected}\n{dump}");
}

#[test]
fn each_operand_of_a_line_is_painted_by_its_kind() {
    let colored = highlight("%3 = draw %1 count=2 \"a b\"");
    assert_eq!(
        colored,
        "\x1b[36m%3\x1b[0m = \x1b[1;34mdraw\x1b[0m \x1b[36m%1\x1b[0m \x1b[37mcount\x1b[0m=\x1b[33m2\x1b[0m \x1b[32m\"a b\"\x1b[0m\n"
    );
    assert_eq!(highlight("; x=1"), "\x1b[90m; x=\x1b[33m1\x1b[0m\x1b[90m\x1b[0m\n");
}
