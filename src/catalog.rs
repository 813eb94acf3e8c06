//! The built-in precedence table and variant prefix catalog.
use vstd::prelude::*;

verus! {

/// The recognised modifier prefixes; their order is the order of the variant groups.
pub open spec fn variant_catalog() -> Seq<Seq<char>> {
    seq![
        "sm"@, "md"@, "lg"@, "xl"@, "2xl"@, "dark"@, "motion-safe"@, "motion-reduce"@,
        "first"@, "last"@, "odd"@, "even"@, "visited"@, "checked"@, "group-hover"@,
        "group-focus"@, "focus-within"@, "hover"@, "focus"@, "focus-visible"@, "active"@,
        "disabled"@,
    ]
}

/// Every catalog entry is short.
pub proof fn lemma_variant_catalog_short()
    ensures
        forall|i: int| 0 <= i < variant_catalog().len() ==> #[trigger] variant_catalog()[i].len() <= 20,
{
    reveal_strlit("sm");
    reveal_strlit("md");
    reveal_strlit("lg");
    reveal_strlit("xl");
    reveal_strlit("2xl");
    reveal_strlit("dark");
    reveal_strlit("motion-safe");
    reveal_strlit("motion-reduce");
    reveal_strlit("first");
    reveal_strlit("last");
    reveal_strlit("odd");
    reveal_strlit("even");
    reveal_strlit("visited");
    reveal_strlit("checked");
    reveal_strlit("group-hover");
    reveal_strlit("group-focus");
    reveal_strlit("focus-within");
    reveal_strlit("hover");
    reveal_strlit("focus");
    reveal_strlit("focus-visible");
    reveal_strlit("active");
    reveal_strlit("disabled");
}

/// The variant prefix catalog.
pub fn variant_prefixes() -> (r: Vec<&'static str>)
    ensures
        r.deep_view() == variant_catalog(),
{
    let r = vec![
        "sm", "md", "lg", "xl", "2xl", "dark", "motion-safe", "motion-reduce",
        "first", "last", "odd", "even", "visited", "checked", "group-hover",
        "group-focus", "focus-within", "hover", "focus", "focus-visible", "active",
        "disabled",
    ];
    proof {
        assert(r.deep_view() =~= variant_catalog());
    }
    r
}

/// The built-in precedence table: canonical class names in rank order.
pub open spec fn builtin_order() -> Seq<Seq<char>> {
    seq![
        "container"@, "sr-only"@, "not-sr-only"@, "static"@, "fixed"@, "absolute"@, "relative"@,
        "sticky"@, "inset-0"@, "inset-y-0"@, "inset-x-0"@, "top-0"@, "right-0"@, "bottom-0"@,
        "left-0"@, "z-0"@, "z-10"@, "z-20"@, "z-30"@, "z-40"@, "z-50"@, "order-first"@,
        "order-last"@, "order-none"@, "col-auto"@, "col-span-1"@, "col-span-2"@, "col-span-3"@,
        "col-span-full"@, "float-right"@, "float-left"@, "float-none"@, "clear-both"@, "m-0"@,
        "m-1"@, "m-2"@, "m-4"@, "m-auto"@, "my-0"@, "my-1"@, "my-2"@, "my-4"@, "my-auto"@, "mx-0"@,
        "mx-1"@, "mx-2"@, "mx-4"@, "mx-auto"@, "mt-0"@, "mt-1"@, "mt-2"@, "mt-4"@, "mr-0"@, "mr-1"@,
        "mr-2"@, "mr-4"@, "mb-0"@, "mb-1"@, "mb-2"@, "mb-4"@, "ml-0"@, "ml-1"@, "ml-2"@, "ml-4"@,
        "box-border"@, "box-content"@, "block"@, "inline-block"@, "inline"@, "flex"@,
        "inline-flex"@, "table"@, "table-row"@, "table-cell"@, "grid"@, "inline-grid"@,
        "contents"@, "hidden"@, "h-0"@, "h-1"@, "h-2"@, "h-4"@, "h-8"@, "h-auto"@, "h-full"@,
        "h-screen"@, "w-0"@, "w-1"@, "w-2"@, "w-4"@, "w-8"@, "w-auto"@, "w-full"@, "w-screen"@,
        "flex-1"@, "flex-auto"@, "flex-initial"@, "flex-none"@, "flex-shrink-0"@, "flex-grow"@,
        "table-auto"@, "table-fixed"@, "transform"@, "cursor-pointer"@, "select-none"@,
        "list-none"@, "grid-cols-1"@, "grid-cols-2"@, "grid-cols-3"@, "flex-row"@,
        "flex-row-reverse"@, "flex-col"@, "flex-col-reverse"@, "flex-wrap"@, "flex-nowrap"@,
        "items-start"@, "items-end"@, "items-center"@, "items-baseline"@, "items-stretch"@,
        "justify-start"@, "justify-end"@, "justify-center"@, "justify-between"@,
        "justify-around"@, "justify-evenly"@, "gap-0"@, "gap-1"@, "gap-2"@, "gap-4"@,
        "space-y-0"@, "space-y-1"@, "space-y-2"@, "space-y-4"@, "space-x-0"@, "space-x-1"@,
        "space-x-2"@, "space-x-4"@, "overflow-auto"@, "overflow-hidden"@, "overflow-visible"@,
        "overflow-scroll"@, "truncate"@, "whitespace-nowrap"@, "rounded-none"@, "rounded"@,
        "rounded-md"@, "rounded-lg"@, "rounded-full"@, "border-0"@, "border-2"@, "border"@,
        "border-t"@, "border-b"@, "border-solid"@, "border-dashed"@, "border-transparent"@,
        "border-black"@, "border-white"@, "border-gray-200"@, "bg-transparent"@, "bg-black"@,
        "bg-white"@, "bg-gray-100"@, "bg-gray-200"@, "bg-blue-500"@, "bg-red-500"@,
        "object-contain"@, "object-cover"@, "p-0"@, "p-1"@, "p-2"@, "p-4"@, "p-8"@, "py-0"@,
        "py-1"@, "py-2"@, "py-4"@, "py-8"@, "px-0"@, "px-1"@, "px-2"@, "px-4"@, "px-8"@, "pt-0"@,
        "pt-1"@, "pt-2"@, "pt-4"@, "pr-0"@, "pr-1"@, "pr-2"@, "pr-4"@, "pb-0"@, "pb-1"@, "pb-2"@,
        "pb-4"@, "pl-0"@, "pl-1"@, "pl-2"@, "pl-4"@, "text-left"@, "text-center"@, "text-right"@,
        "text-justify"@, "align-top"@, "align-middle"@, "align-bottom"@, "font-sans"@,
        "font-serif"@, "font-mono"@, "text-xs"@, "text-sm"@, "text-base"@, "text-lg"@,
        "text-xl"@, "text-2xl"@, "font-light"@, "font-normal"@, "font-medium"@,
        "font-semibold"@, "font-bold"@, "uppercase"@, "lowercase"@, "capitalize"@,
        "normal-case"@, "italic"@, "not-italic"@, "leading-none"@, "leading-tight"@,
        "leading-normal"@, "tracking-tight"@, "tracking-normal"@, "tracking-wide"@,
        "text-transparent"@, "text-black"@, "text-white"@, "text-gray-500"@,
        "text-gray-700"@, "text-blue-500"@, "text-red-500"@, "underline"@, "line-through"@,
        "no-underline"@, "antialiased"@, "opacity-0"@, "opacity-50"@, "opacity-100"@,
        "shadow-sm"@, "shadow"@, "shadow-md"@, "shadow-lg"@, "shadow-none"@, "outline-none"@,
        "ring"@, "ring-2"@, "filter"@, "blur"@, "transition"@, "transition-all"@,
        "transition-colors"@, "duration-150"@, "duration-300"@, "ease-in"@, "ease-out"@,
        "ease-in-out"@,
    ]
}

/// The built-in precedence table, in rank order.
pub fn default_sort_order() -> (r: Vec<String>)
    ensures
        r.deep_view() == builtin_order(),
{
    let names = vec![
        "container", "sr-only", "not-sr-only", "static", "fixed", "absolute", "relative",
        "sticky", "inset-0", "inset-y-0", "inset-x-0", "top-0", "right-0", "bottom-0",
        "left-0", "z-0", "z-10", "z-20", "z-30", "z-40", "z-50", "order-first",
        "order-last", "order-none", "col-auto", "col-span-1", "col-span-2", "col-span-3",
        "col-span-full", "float-right", "float-left", "float-none", "clear-both", "m-0",
        "m-1", "m-2", "m-4", "m-auto", "my-0", "my-1", "my-2", "my-4", "my-auto", "mx-0",
        "mx-1", "mx-2", "mx-4", "mx-auto", "mt-0", "mt-1", "mt-2", "mt-4", "mr-0", "mr-1",
        "mr-2", "mr-4", "mb-0", "mb-1", "mb-2", "mb-4", "ml-0", "ml-1", "ml-2", "ml-4",
        "box-border", "box-content", "block", "inline-block", "inline", "flex",
        "inline-flex", "table", "table-row", "table-cell", "grid", "inline-grid",
        "contents", "hidden", "h-0", "h-1", "h-2", "h-4", "h-8", "h-auto", "h-full",
        "h-screen", "w-0", "w-1", "w-2", "w-4", "w-8", "w-auto", "w-full", "w-screen",
        "flex-1", "flex-auto", "flex-initial", "flex-none", "flex-shrink-0", "flex-grow",
        "table-auto", "table-fixed", "transform", "cursor-pointer", "select-none",
        "list-none", "grid-cols-1", "grid-cols-2", "grid-cols-3", "flex-row",
        "flex-row-reverse", "flex-col", "flex-col-reverse", "flex-wrap", "flex-nowrap",
        "items-start", "items-end", "items-center", "items-baseline", "items-stretch",
        "justify-start", "justify-end", "justify-center", "justify-between",
        "justify-around", "justify-evenly", "gap-0", "gap-1", "gap-2", "gap-4",
        "space-y-0", "space-y-1", "space-y-2", "space-y-4", "space-x-0", "space-x-1",
        "space-x-2", "space-x-4", "overflow-auto", "overflow-hidden", "overflow-visible",
        "overflow-scroll", "truncate", "whitespace-nowrap", "rounded-none", "rounded",
        "rounded-md", "rounded-lg", "rounded-full", "border-0", "border-2", "border",
        "border-t", "border-b", "border-solid", "border-dashed", "border-transparent",
        "border-black", "border-white", "border-gray-200", "bg-transparent", "bg-black",
        "bg-white", "bg-gray-100", "bg-gray-200", "bg-blue-500", "bg-red-500",
        "object-contain", "object-cover", "p-0", "p-1", "p-2", "p-4", "p-8", "py-0",
        "py-1", "py-2", "py-4", "py-8", "px-0", "px-1", "px-2", "px-4", "px-8", "pt-0",
        "pt-1", "pt-2", "pt-4", "pr-0", "pr-1", "pr-2", "pr-4", "pb-0", "pb-1", "pb-2",
        "pb-4", "pl-0", "pl-1", "pl-2", "pl-4", "text-left", "text-center", "text-right",
        "text-justify", "align-top", "align-middle", "align-bottom", "font-sans",
        "font-serif", "font-mono", "text-xs", "text-sm", "text-base", "text-lg",
        "text-xl", "text-2xl", "font-light", "font-normal", "font-medium",
        "font-semibold", "font-bold", "uppercase", "lowercase", "capitalize",
        "normal-case", "italic", "not-italic", "leading-none", "leading-tight",
        "leading-normal", "tracking-tight", "tracking-normal", "tracking-wide",
        "text-transparent", "text-black", "text-white", "text-gray-500",
        "text-gray-700", "text-blue-500", "text-red-500", "underline", "line-through",
        "no-underline", "antialiased", "opacity-0", "opacity-50", "opacity-100",
        "shadow-sm", "shadow", "shadow-md", "shadow-lg", "shadow-none", "outline-none",
        "ring", "ring-2", "filter", "blur", "transition", "transition-all",
        "transition-colors", "duration-150", "duration-300", "ease-in", "ease-out",
        "ease-in-out",
    ];
    proof {
        assert(names.deep_view() =~= builtin_order());
    }
    let mut r: Vec<String> = Vec::new();
    let mut i: usize = 0;
    while i < names.len()
        invariant
            i <= names.len(),
            names.deep_view() == builtin_order(),
            r.deep_view() == names.deep_view().subrange(0, i as int),
        decreases names.len() - i,
    {
        let ghost before = r.deep_view();
        let name: &str = names[i];
        let owned = name.to_owned();
        assert(owned@ == names.deep_view()[i as int]);
        r.push(owned);
        i = i + 1;
        proof {
            assert(r.deep_view() =~= before.push(owned@));
            assert(r.deep_view() =~= names.deep_view().subrange(0, i as int));
        }
    }
    proof {
        assert(names.deep_view().subrange(0, i as int) =~= names.deep_view());
    }
    r
}

} // verus!
